//! What the configuration, the settings, requests and the paper account come
//! to, said of their inputs and results.

use vstd::prelude::*;

use crate::api::{
    balanced, base64_char, base64_group, base64_of, factor_sizes, in_cents, price_text, pss_verifies, query_of, reads,
    reply_of, signing_outcome, url_of, without_query, without_slashes, Call, ParamView, SignRefusal,
};
use crate::config::{candidate_of, is_category, is_config, is_live, is_mm, is_spot, CategoryConfig, Config};
use crate::config::{Fault, LiveConfig, MmParams, SpotParams};
use crate::json::JsonView;
use crate::model::{input_width, unit_of};
use crate::num::Num;
use crate::paper::{after_cancel, order_record, records_of, resting_count, PaperOrder, PaperStatus};
use crate::startup::{cut, cut_end, cut_start, flattened, is_edge, setting_in};
use crate::text::{decimal, find_from, padded, signed_decimal};
use crate::toml_tree::TomlView;

verus! {

// --- the configuration -------------------------------------------------------

/// A real parameter by its entry: a number in billionths, whole ones times a
/// billion, and the default where there is no entry.
pub open spec fn reads_real(entry: Option<TomlView>, default: int, value: int) -> bool {
    match entry {
        None => value == default,
        Some(TomlView::Integer(n)) => -9_000_000_000 <= n <= 9_000_000_000 ==> value == n
            * 1_000_000_000,
        Some(TomlView::Float(text)) => forall|n: i128|
            #[trigger] crate::num::number_in(text) == Some(Num::Finite(n)) && i64::MIN <= n
                <= i64::MAX ==> value == n,
        _ => false,
    }
}

/// A parameter in seconds by its entry: microseconds, and the default where
/// there is no entry.
pub open spec fn reads_seconds(entry: Option<TomlView>, default: int, value: int) -> bool {
    match entry {
        None => value == default,
        Some(TomlView::Integer(n)) => -9_000_000_000_000 <= n <= 9_000_000_000_000 ==> value == n
            * 1_000_000,
        Some(TomlView::Float(text)) => forall|n: i128|
            #[trigger] crate::num::number_in(text) == Some(Num::Finite(n)) && i64::MIN <= n
                <= i64::MAX ==> -1000 <= 2 * (value * 1000 - n) <= 1000,
        _ => false,
    }
}

/// A whole parameter by its entry, and the default where there is none.
pub open spec fn reads_whole(entry: Option<TomlView>, default: int, value: int) -> bool {
    match entry {
        None => value == default,
        Some(TomlView::Integer(n)) => value == n,
        _ => false,
    }
}

/// The account's limits in the file. The first four must be there; without the
/// others the checkpoint is `june`, no streak halts, and a ladder may lose five
/// dollars.
pub proof fn law_live_settings(v: TomlView, live: LiveConfig)
    requires
        is_live(v, live),
        v is Table,
    ensures
        v.entry("capital"@) is Some,
        v.entry("max_daily_loss"@) is Some,
        v.entry("max_position_value"@) is Some,
        v.entry("stop_loss_threshold"@) is Some,
        reads_real(v.entry("capital"@), 0, live.capital as int),
        reads_real(v.entry("max_daily_loss"@), 0, live.max_daily_loss as int),
        reads_real(v.entry("max_position_value"@), 0, live.max_position_value as int),
        reads_real(v.entry("stop_loss_threshold"@), 0, live.stop_loss_threshold as int),
        v.entry("checkpoint_prefix"@) is None ==> live.checkpoint_prefix@ == "june"@,
        v.entry("checkpoint_prefix"@) matches Some(t) ==> t == TomlView::Text(
            live.checkpoint_prefix@,
        ),
        reads_whole(
            v.entry("halt_on_consecutive_losses"@),
            0,
            live.halt_on_consecutive_losses as int,
        ),
        reads_real(
            v.entry("max_ladder_tail_loss"@),
            5_000_000_000,
            live.max_ladder_tail_loss as int,
        ),
{
}

/// The strategy's parameters in the file, and what holds without them.
pub proof fn law_mm_settings(v: TomlView, mm: MmParams)
    requires
        is_mm(v, mm),
        v is Table,
    ensures
        reads_whole(v.entry("max_inventory"@), 20, mm.max_inventory as int),
        reads_whole(v.entry("quote_size"@), 1, mm.quote_size as int),
        reads_real(v.entry("maker_fee_rate"@), 17_500_000, mm.maker_fee_rate as int),
        reads_real(v.entry("taker_fee_rate"@), 70_000_000, mm.taker_fee_rate as int),
        v.entry("subpenny_enabled"@) is None ==> mm.subpenny_enabled,
        v.entry("subpenny_enabled"@) matches Some(b) ==> b == TomlView::Bool(mm.subpenny_enabled),
        reads_real(v.entry("vol_filter_threshold"@), 50_000_000, mm.vol_filter_threshold as int),
        reads_real(v.entry("min_quote_edge"@), 10_000_000, mm.min_quote_edge as int),
        reads_whole(v.entry("max_open_orders"@), 60, mm.max_open_orders as int),
        reads_seconds(v.entry("balance_backoff_s"@), 60_000_000, mm.balance_backoff_s as int),
        reads_real(v.entry("quote_band_lo"@), 50_000_000, mm.quote_band_lo as int),
        reads_real(v.entry("quote_band_hi"@), 950_000_000, mm.quote_band_hi as int),
        reads_whole(v.entry("extreme_quote_size"@), 2, mm.extreme_quote_size as int),
        reads_real(v.entry("extreme_band"@), 100_000_000, mm.extreme_band as int),
{
}

/// The parameters of the spot defence in the file, and what holds without them.
pub proof fn law_spot_settings(v: TomlView, spot: SpotParams)
    requires
        is_spot(v, spot),
        v is Table,
    ensures
        reads_seconds(v.entry("stale_max_s"@), 10_000_000, spot.stale_max_s as int),
        reads_real(v.entry("gate_ret_60s"@), 1_500_000, spot.gate_ret_60s as int),
        reads_real(v.entry("gate_release_ratio"@), 700_000_000, spot.gate_release_ratio as int),
        reads_seconds(v.entry("fv_ema_tau_s"@), 60_000_000, spot.fv_ema_tau_s as int),
        reads_real(v.entry("fv_shift_max"@), 100_000_000, spot.fv_shift_max as int),
        reads_real(v.entry("unwind_shift"@), 40_000_000, spot.unwind_shift as int),
        reads_real(v.entry("delta_max"@), 5_000_000, spot.delta_max as int),
{
}

/// A category in the file: its name must be there, and without the others it
/// has one contract, an inventory of five, nineteen dollars and no feed.
pub proof fn law_category_settings(v: TomlView, c: CategoryConfig)
    requires
        is_category(v, c),
        v is Table,
    ensures
        v.entry("name"@) == Some(TomlView::Text(c.name@)),
        reads_whole(v.entry("max_contracts"@), 1, c.max_contracts as int),
        reads_whole(v.entry("max_inventory"@), 5, c.max_inventory as int),
        reads_real(v.entry("capital_allocation"@), 19_000_000_000, c.capital_allocation as int),
        reads_real(v.entry("vol_3mo"@), 0, c.vol_3mo as int),
        v.entry("spot_feed"@) is None ==> c.spot_feed is None,
        v.entry("spot_feed"@) is Some ==> c.spot_feed is Some && v.entry("spot_feed"@) == Some(
            TomlView::Text(c.spot_feed->Some_0@),
        ),
{
}

/// A document states its parts under their names; the strategy's parameters and
/// the spot defence may be missing.
pub proof fn law_parts(v: TomlView, cfg: Config)
    requires
        is_config(v, cfg),
    ensures
        v.entry("live"@) is Some && is_live(v.entry("live"@)->Some_0, cfg.live),
        v.entry("mm"@) matches Some(t) ==> is_mm(t, cfg.mm),
        v.entry("mm"@) is None ==> cfg.mm.max_inventory == 20 && cfg.mm.maker_fee_rate == 17_500_000,
        v.entry("spot"@) matches Some(t) ==> is_spot(t, cfg.spot),
        v.entry("spot"@) is None ==> cfg.spot.stale_max_s == 10_000_000 && cfg.spot.gate_ret_60s
            == 1_500_000,
        v.entry("categories"@) matches Some(TomlView::Array(items)) && items.len()
            == cfg.categories@.len(),
{
}

/// What makes a configuration unusable: no category; a feed without a barrier
/// that closes on a move, a limit on its age and a release between nothing and
/// all of the threshold; or a negative cap on a ladder's loss.
pub proof fn law_faults(cfg: Config)
    ensures
        ({
            let feed = exists|i: int|
                0 <= i < cfg.categories@.len() && (#[trigger] cfg.categories@[i]).spot_feed is Some;
            let spot = cfg.spot;
            let works = spot.gate_ret_60s >= 1 && spot.stale_max_s >= 1 && 1
                <= spot.gate_release_ratio <= 1_000_000_000;
            &&& cfg.fault() is None <==> cfg.categories@.len() > 0 && (feed ==> works)
                && cfg.live.max_ladder_tail_loss >= 0
            &&& cfg.categories@.len() == 0 ==> cfg.fault() == Some(Fault::NoCategories)
            &&& cfg.categories@.len() > 0 && feed && !works ==> cfg.fault() == Some(
                Fault::SpotGate,
            )
        }),
{
}

/// A bare name is a file in the config directory, and one that begins at the
/// root is its own path.
pub proof fn law_candidates(name: Seq<char>)
    ensures
        name.len() > 0 && name[0] == '/' ==> candidate_of(name) == name + ".toml"@,
        name.len() > 0 && name[0] != '/' ==> candidate_of(name) == "config/"@ + name + ".toml"@,
{
}

// --- a policy's numbers ------------------------------------------------------

/// A number of an action is kept where it is between minus one and one, and
/// moved to the nearer end otherwise.
pub proof fn law_actions(x: i64)
    ensures
        -1_000_000_000 <= x <= 1_000_000_000 ==> unit_of(x) == x,
        x > 1_000_000_000 ==> unit_of(x) == 1_000_000_000,
        x < -1_000_000_000 ==> unit_of(x) == -1_000_000_000,
{
}

/// The width of a policy's input is its last dimension.
pub proof fn law_width(dims: Seq<i64>)
    ensures
        dims.len() == 0 ==> input_width(dims) == -1,
        dims.len() > 0 ==> input_width(dims) == dims[dims.len() - 1],
{
}

// --- settings ----------------------------------------------------------------

/// Cutting takes edge characters off both ends and nothing else.
pub proof fn law_cut(s: Seq<char>, quotes: bool) -> (at: int)
    ensures
        ({
            let r = cut(s, quotes);
            &&& 0 <= at && at + r.len() <= s.len()
            &&& r == s.subrange(at, at + r.len())
            &&& forall|i: int| 0 <= i < at ==> is_edge(#[trigger] s[i], quotes)
            &&& forall|i: int| at + r.len() <= i < s.len() ==> is_edge(#[trigger] s[i], quotes)
            &&& r.len() > 0 ==> !is_edge(r[0], quotes) && !is_edge(r[r.len() - 1], quotes)
        }),
{
    let at = lemma_cut_start(s, quotes);
    let t = cut_start(s, quotes);
    lemma_cut_end(t, quotes);
    let r = cut_end(t, quotes);
    assert(r =~= s.subrange(at, at + r.len()));
    assert forall|i: int| at + r.len() <= i < s.len() implies is_edge(#[trigger] s[i], quotes) by {
        assert(t[i - at] == s[i]);
        assert(is_edge(t[i - at], quotes));
    }
    if r.len() > 0 {
        assert(r[0] == t[0]);
    }
    at
}

proof fn lemma_cut_start(s: Seq<char>, quotes: bool) -> (at: int)
    ensures
        0 <= at <= s.len(),
        cut_start(s, quotes) == s.skip(at),
        forall|i: int| 0 <= i < at ==> is_edge(#[trigger] s[i], quotes),
        at < s.len() ==> !is_edge(s[at], quotes),
    decreases s.len(),
{
    if s.len() > 0 && is_edge(s[0], quotes) {
        let rest = s.drop_first();
        let k = lemma_cut_start(rest, quotes);
        assert(rest.skip(k) =~= s.skip(k + 1));
        assert forall|i: int| 0 <= i < k + 1 implies is_edge(#[trigger] s[i], quotes) by {
            if i > 0 {
                assert(rest[i - 1] == s[i]);
            }
        }
        k + 1
    } else {
        assert(s.skip(0) =~= s);
        0
    }
}

proof fn lemma_cut_end(s: Seq<char>, quotes: bool)
    ensures
        ({
            let r = cut_end(s, quotes);
            &&& r.len() <= s.len()
            &&& r == s.take(r.len() as int)
            &&& forall|i: int| r.len() <= i < s.len() ==> is_edge(#[trigger] s[i], quotes)
            &&& r.len() > 0 ==> !is_edge(r[r.len() - 1], quotes)
        }),
    decreases s.len(),
{
    if s.len() > 0 && is_edge(s.last(), quotes) {
        let rest = s.drop_last();
        lemma_cut_end(rest, quotes);
        let r = cut_end(rest, quotes);
        assert(rest.take(r.len() as int) =~= s.take(r.len() as int));
        assert forall|i: int| r.len() <= i < s.len() implies is_edge(#[trigger] s[i], quotes) by {
            if i < rest.len() {
                assert(rest[i] == s[i]);
            }
        }
    } else {
        assert(s.take(s.len() as int) =~= s);
    }
}

/// A line `KEY=VALUE` without space around its parts is a setting, and quotes
/// around the value go; a comment is none.
pub proof fn law_settings(key: Seq<char>, value: Seq<char>, line: Seq<char>)
    requires
        key.len() > 0,
        value.len() > 0,
        !key.contains('='),
        key[0] != '#',
        !is_edge(key[0], false),
        !is_edge(key[key.len() - 1], false),
        !is_edge(value[0], false),
        !is_edge(value[value.len() - 1], false),
        !is_edge(value[0], true),
        !is_edge(value[value.len() - 1], true),
        line.len() > 0 && line[0] == '#',
    ensures
        setting_in(key + seq!['='] + value) matches Some(s) && s.key == key && s.value == value,
        setting_in(key + seq!['='] + seq!['"'] + value + seq!['"']) matches Some(s) && s.key == key
            && s.value == value,
        setting_in(line) is None,
{
    let plain = key + seq!['='] + value;
    let quoted = key + seq!['='] + seq!['"'] + value + seq!['"'];
    let inner = seq!['"'] + value + seq!['"'];
    lemma_uncut(key, false);
    lemma_uncut(value, false);
    lemma_uncut(value, true);
    assert(plain[0] == key[0]);
    assert(plain[plain.len() - 1] == value[value.len() - 1]);
    lemma_uncut(plain, false);
    assert(quoted[0] == key[0]);
    assert(quoted[quoted.len() - 1] == '"');
    lemma_uncut(quoted, false);
    let n = key.len() as int;
    assert forall|i: int| 0 <= i < n implies plain[i] != '=' && quoted[i] != '=' by {
        assert(plain[i] == key[i] && quoted[i] == key[i]);
        assert(key.contains(key[i]));
    }
    lemma_equals(plain, 0, n);
    lemma_equals(quoted, 0, n);
    assert(plain.take(n) =~= key);
    assert(plain.skip(n + 1) =~= value);
    assert(quoted.take(n) =~= key);
    assert(quoted.skip(n + 1) =~= inner);
    assert(inner[0] == '"' && inner[inner.len() - 1] == '"');
    lemma_uncut(inner, false);
    lemma_unquoted(value);
    lemma_comment(line);
}

proof fn lemma_uncut(s: Seq<char>, quotes: bool)
    requires
        s.len() > 0,
        !is_edge(s[0], quotes),
        !is_edge(s[s.len() - 1], quotes),
    ensures
        cut(s, quotes) == s,
{
    assert(cut_start(s, quotes) == s);
    assert(s.last() == s[s.len() - 1]);
}

proof fn lemma_unquoted(value: Seq<char>)
    requires
        value.len() > 0,
        !is_edge(value[0], true),
        !is_edge(value[value.len() - 1], true),
    ensures
        cut(seq!['"'] + value + seq!['"'], true) == value,
{
    let inner = seq!['"'] + value + seq!['"'];
    let behind = value + seq!['"'];
    assert(inner.drop_first() =~= behind);
    assert(behind[0] == value[0]);
    assert(cut_start(behind, true) == behind);
    assert(cut_start(inner, true) == behind);
    assert(behind.last() == '"');
    assert(behind.drop_last() =~= value);
    assert(value.last() == value[value.len() - 1]);
    assert(cut_end(value, true) == value);
}

proof fn lemma_comment(line: Seq<char>)
    requires
        line.len() > 0,
        line[0] == '#',
    ensures
        setting_in(line) is None,
{
    assert(cut_start(line, false) == line);
    lemma_cut_end(line, false);
    let text = cut_end(line, false);
    if text.len() > 0 {
        assert(text[0] == line[0]);
    }
}

proof fn lemma_equals(s: Seq<char>, from: int, at: int)
    requires
        0 <= from <= at < s.len(),
        forall|i: int| from <= i < at ==> s[i] != '=',
        s[at] == '=',
    ensures
        find_from(s, '=', from) == at,
    decreases at - from,
{
    if from < at {
        lemma_equals(s, from + 1, at);
    }
}

/// A path as part of a file name has no separators left, and its other
/// characters stay where they are.
pub proof fn law_flattened(s: Seq<char>)
    ensures
        flattened(s).len() == s.len(),
        forall|i: int|
            0 <= i < s.len() ==> (#[trigger] flattened(s)[i]) != '/' && flattened(s)[i] != '\\',
        forall|i: int|
            0 <= i < s.len() && s[i] != '/' && s[i] != '\\' ==> #[trigger] flattened(s)[i] == s[i],
        forall|i: int|
            0 <= i < s.len() && (s[i] == '/' || s[i] == '\\') ==> #[trigger] flattened(s)[i] == '_',
{
}

// --- requests ----------------------------------------------------------------

/// The number that a character of the base64 alphabet stands for.
pub open spec fn sextet(c: char) -> int {
    if 'A' <= c && c <= 'Z' {
        c as int - 65
    } else if 'a' <= c && c <= 'z' {
        c as int - 71
    } else if '0' <= c && c <= '9' {
        c as int + 4
    } else if c == '+' {
        62
    } else {
        63
    }
}

/// Every three bytes can be read back from the four characters written for
/// them.
pub proof fn law_base64_group(a: int, b: int, c: int)
    requires
        0 <= a < 256,
        0 <= b < 256,
        0 <= c < 256,
    ensures
        ({
            let g = base64_group(a, b, c);
            &&& g.len() == 4
            &&& sextet(g[0]) * 262144 + sextet(g[1]) * 4096 + sextet(g[2]) * 64 + sextet(g[3]) == a
                * 65536 + b * 256 + c
        }),
{
    lemma_sextet(a / 4);
    lemma_sextet(a % 4 * 16 + b / 16);
    lemma_sextet(b % 16 * 4 + c / 64);
    lemma_sextet(c % 64);
}

proof fn lemma_sextet(n: int)
    requires
        0 <= n < 64,
    ensures
        sextet(base64_char(n)) == n,
{
}

/// A key is refused where its second factor is more than sixteen bits longer
/// than the first, or where it has no two. What is signed with any other is a
/// signature of the text that verifies, or the signer refuses.
pub proof fn law_signing(
    sizes: Seq<usize>,
    r: Result<Seq<char>, SignRefusal>,
    key: rsa::RsaPrivateKey,
    message: Seq<char>,
)
    requires
        signing_outcome(r, key, message),
    ensures
        sizes.len() < 2 ==> !balanced(sizes),
        sizes.len() >= 2 ==> (balanced(sizes) <==> sizes[1] <= sizes[0] + 16),
        r matches Ok(text) ==> exists|signature: Seq<u8>|
            text == base64_of(signature) && #[trigger] pss_verifies(key, message, signature),
        r == Err::<Seq<char>, SignRefusal>(SignRefusal::Unbalanced) <==> !balanced(
            factor_sizes(key),
        ),
{
}

/// A call that reads asks for an endpoint with parameters and sends nothing.
pub proof fn law_reading_calls(call: Call, endpoint: Seq<char>, params: Seq<ParamView>, base: Seq<char>)
    requires
        reads(call, endpoint, params),
    ensures
        call.method@ == "GET"@,
        call.body is None,
        url_of(base, call.endpoint@, crate::api::params_view(call.params@)) == url_of(
            base,
            endpoint,
            params,
        ),
        call.endpoint@ == endpoint,
{
}

/// Whole groups of three bytes are written one after the other.
pub proof fn law_base64_groups(bytes: Seq<u8>)
    requires
        bytes.len() >= 3,
    ensures
        base64_of(bytes).take(4) == base64_group(bytes[0] as int, bytes[1] as int, bytes[2] as int),
        base64_of(bytes).skip(4) == base64_of(bytes.skip(3)),
        base64_of(bytes).len() == 4 + base64_of(bytes.skip(3)).len(),
{
    let g = base64_group(bytes[0] as int, bytes[1] as int, bytes[2] as int);
    let rest = base64_of(bytes.skip(3));
    assert(base64_of(bytes) == g + rest);
    assert((g + rest).take(4) =~= g);
    assert((g + rest).skip(4) =~= rest);
}

/// A group that is not full is written with zeros for the missing bytes, and an
/// equals sign stands for each of them.
pub proof fn law_base64_ends(a: u8, b: u8)
    ensures
        base64_of(seq![]).len() == 0,
        base64_of(seq![a]) == base64_group(a as int, 0, 0).update(2, '=').update(3, '='),
        base64_of(seq![a, b]) == base64_group(a as int, b as int, 0).update(3, '='),
{
    let one = base64_group(a as int, 0, 0);
    let two = base64_group(a as int, b as int, 0);
    assert(one.take(2) + seq!['=', '='] =~= one.update(2, '=').update(3, '='));
    assert(two.take(3) + seq!['='] =~= two.update(3, '='));
}

/// A signature covers the path up to its query.
pub proof fn law_without_query(path: Seq<char>)
    ensures
        ({
            let r = without_query(path);
            &&& r.len() <= path.len()
            &&& r == path.take(r.len() as int)
            &&& !r.contains('?')
            &&& r.len() < path.len() ==> path[r.len() as int] == '?'
        }),
{
    crate::text::lemma_find_from(path, '?', 0);
    let r = without_query(path);
    if r.contains('?') {
        let i = r.index_of('?');
        assert(path[i] == '?');
    }
}

/// An address loses the slashes at its end and nothing else.
pub proof fn law_without_slashes(s: Seq<char>)
    ensures
        ({
            let r = without_slashes(s);
            &&& r.len() <= s.len()
            &&& r == s.take(r.len() as int)
            &&& r.len() > 0 ==> r[r.len() - 1] != '/'
            &&& forall|i: int| r.len() <= i < s.len() ==> #[trigger] s[i] == '/'
        }),
    decreases s.len(),
{
    if s.len() > 0 && s.last() == '/' {
        let rest = s.drop_last();
        law_without_slashes(rest);
        let r = without_slashes(rest);
        assert(rest.take(r.len() as int) =~= s.take(r.len() as int));
        assert forall|i: int| r.len() <= i < s.len() implies #[trigger] s[i] == '/' by {
            if i < rest.len() {
                assert(rest[i] == s[i]);
            }
        }
    } else {
        assert(s.take(s.len() as int) =~= s);
    }
}

/// A request's address: the base, the endpoint and the parameters in order,
/// each as its key, an equals sign and its value.
pub proof fn law_addresses(
    base: Seq<char>,
    endpoint: Seq<char>,
    a: ParamView,
    b: ParamView,
    more: Seq<ParamView>,
)
    requires
        more.len() > 0,
    ensures
        url_of(base, endpoint, seq![]) == base + endpoint,
        url_of(base, endpoint, seq![a]) == base + endpoint + "?"@ + (a.key + "="@ + a.value),
        url_of(base, endpoint, more.push(b)) == url_of(base, endpoint, more) + ("&"@ + (b.key + "="@
            + b.value)),
{
    let one = seq![a];
    assert(one.last() == a);
    let longer = more.push(b);
    assert(longer.drop_last() =~= more);
    assert(longer.last() == b);
    let last = b.key + "="@ + b.value;
    assert(query_of(longer) == query_of(more) + "&"@ + last);
    assert(base + endpoint + "?"@ + (query_of(more) + "&"@ + last) =~= base + endpoint + "?"@
        + query_of(more) + ("&"@ + last));
}

/// A reply that the exchange refused is an error with its status and text, and
/// one that is no JSON is an error too.
pub proof fn law_replies(status: Seq<char>, text: Seq<char>)
    ensures
        reply_of(false, status, text) == Err::<JsonView, Seq<char>>(
            status + " - Response: "@ + text,
        ),
        crate::json::parsed(text) matches Ok(v) ==> reply_of(true, status, text) == Ok::<
            JsonView,
            Seq<char>,
        >(v),
        crate::json::parsed(text) is Err ==> reply_of(true, status, text) is Err,
{
}

/// A price in whole cents is written with two places and any other with three;
/// a negative one is the positive one behind a minus sign.
pub proof fn law_price_texts(cents: int, price: int)
    requires
        0 <= cents,
        0 < price,
    ensures
        price_text(cents * 10_000_000) == decimal((cents / 100) as nat) + "."@ + padded(
            (cents % 100) as nat,
            2,
        ),
        price % 10_000_000 != 0 ==> price_text(price).len() >= 4 && price_text(price)[price_text(
            price,
        ).len() - 4] == '.',
        price_text(-price) == "-"@ + price_text(price),
{
    let c = cents * 10_000_000;
    crate::exposure_laws::lemma_whole(cents, 10_000_000);
    assert(in_cents(c));
    assert(crate::num::magnitude(c) / 10_000_000 == cents);
    reveal_strlit(".");
    if price % 10_000_000 != 0 {
        let r = crate::num::round_even(price, 10_000_000);
        assert(r * 10_000_000 != price);
        let units = crate::num::round_even(price, 1_000_000) as nat;
        reveal_with_fuel(padded, 4);
        let tail = padded(units % 1000, 3);
        assert(tail.len() == 3);
        let head = decimal(units / 1000);
        assert(price_text(price) == head + "."@ + tail);
        assert("."@.len() == 1 && "."@[0] == '.');
        assert(price_text(price)[head.len() as int] == '.');
    }
    lemma_cents_either_way(price);
}

proof fn lemma_cents_either_way(price: int)
    requires
        price > 0,
    ensures
        in_cents(-price) == in_cents(price),
{
    let d = 10_000_000int;
    if price % d == 0 {
        crate::exposure_laws::lemma_whole(price / d, d);
        crate::exposure_laws::lemma_whole(-(price / d), d);
    } else {
        assert((-price) % d != 0);
    }
}

// --- the paper account -------------------------------------------------------

/// The record of a paper order tells what the order is, its price in cents.
pub proof fn law_paper_record(order: PaperOrder)
    requires
        -1_000_000_000_000_000_000 <= order.price_cents <= 1_000_000_000_000_000_000,
    ensures
        ({
            let r = order_record(order);
            &&& r.text_field("order_id"@) == Some(order.order_id@)
            &&& r.text_field("market_ticker"@) == Some(order.market_ticker@)
            &&& r.text_field("side"@) == Some(order.side@)
            &&& r.field("size"@) == Some(JsonView::Number(signed_decimal(order.size as int)))
            &&& order.status == PaperStatus::Resting ==> r.text_field("status"@) == Some("resting"@)
            &&& order.status == PaperStatus::Canceled ==> r.text_field("status"@) == Some(
                "canceled"@,
            )
        }),
{
    reveal_strlit("order_id");
    reveal_strlit("market_ticker");
    reveal_strlit("side");
    reveal_strlit("price_cents");
    reveal_strlit("size");
    reveal_strlit("status");
    assert("order_id"@.len() == 8 && "market_ticker"@.len() == 13 && "side"@.len() == 4
        && "price_cents"@.len() == 11 && "size"@.len() == 4 && "status"@.len() == 6);
    assert("side"@[1] == 'i' && "size"@[2] == 'z' && "side"@[2] == 'd');
    reveal_with_fuel(crate::json::lookup, 7);
}

/// The records asked for by a status are those of the orders that have it, and
/// all of them where none is asked for.
pub proof fn law_paper_records(orders: Seq<PaperOrder>)
    ensures
        records_of(orders, None).len() == orders.len(),
        forall|i: int|
            0 <= i < orders.len() ==> #[trigger] records_of(orders, None)[i] == order_record(
                orders[i],
            ),
        resting_count(orders) == orders.filter(
            |o: PaperOrder| o.status == PaperStatus::Resting,
        ).len(),
        records_of(orders, Some("resting")).len() == resting_count(orders),
    decreases orders.len(),
{
    reveal(Seq::filter);
    reveal_strlit("resting");
    reveal_strlit("canceled");
    assert("resting"@.len() != "canceled"@.len());
    if orders.len() > 0 {
        let rest = orders.drop_last();
        law_paper_records(rest);
        assert forall|i: int| 0 <= i < orders.len() implies #[trigger] records_of(orders, None)[i]
            == order_record(orders[i]) by {
            if i < rest.len() {
                assert(records_of(rest, None)[i] == order_record(rest[i]));
            }
        }
    }
}

/// A cancellation changes the status of the order that it names and of no
/// other.
pub proof fn law_paper_cancel(order: PaperOrder, id: Seq<char>)
    ensures
        order.order_id@ == id ==> after_cancel(order, id).status == PaperStatus::Canceled,
        order.order_id@ != id ==> after_cancel(order, id) == order,
        after_cancel(order, id).order_id == order.order_id,
        after_cancel(order, id).size == order.size,
        after_cancel(order, id).price_cents == order.price_cents,
{
}

} // verus!
