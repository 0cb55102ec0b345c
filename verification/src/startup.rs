//! What is settled before trading starts: the environment file, the name of
//! the log, and whether orders are real.

use vstd::prelude::*;

use crate::text::{
    chars_of, find_char, find_from, is_space, is_space_spec, matches_at, occurs_at, text_of,
};

verus! {

// --- the environment file ----------------------------------------------------

/// A character that is cut off at the ends: white space, or quotes.
pub open spec fn is_edge(c: char, quotes: bool) -> bool {
    if quotes {
        c == '"'
    } else {
        is_space_spec(c)
    }
}

/// A text without the edge characters at its start.
pub open spec fn cut_start(s: Seq<char>, quotes: bool) -> Seq<char>
    decreases s.len(),
{
    if s.len() > 0 && is_edge(s[0], quotes) {
        cut_start(s.drop_first(), quotes)
    } else {
        s
    }
}

/// A text without the edge characters at its end.
pub open spec fn cut_end(s: Seq<char>, quotes: bool) -> Seq<char>
    decreases s.len(),
{
    if s.len() > 0 && is_edge(s.last(), quotes) {
        cut_end(s.drop_last(), quotes)
    } else {
        s
    }
}

/// A text without the edge characters at either end.
pub open spec fn cut(s: Seq<char>, quotes: bool) -> Seq<char> {
    cut_end(cut_start(s, quotes), quotes)
}

/// A variable and its value.
#[verifier::ext_equal]
pub struct Setting {
    pub key: Seq<char>,
    pub value: Seq<char>,
}

/// The setting on a line `KEY=VALUE`; none on an empty line, on a comment, and
/// on a line without an equals sign. Quotes around the value go.
pub open spec fn setting_in(line: Seq<char>) -> Option<Setting> {
    let text = cut(line, false);
    let at = find_from(text, '=', 0);
    if text.len() == 0 || text[0] == '#' || at >= text.len() {
        None
    } else {
        Some(
            Setting {
                key: cut(text.take(at), false),
                value: cut(cut(text.skip(at + 1), false), true),
            },
        )
    }
}

/// The settings on the lines of a text from a position on.
pub open spec fn settings_from(text: Seq<char>, from: int) -> Seq<Setting>
    decreases text.len() - from,
{
    if from < 0 || from >= text.len() {
        seq![]
    } else {
        let end = find_from(text, '\n', from);
        let rest = if from <= end < text.len() {
            settings_from(text, end + 1)
        } else {
            seq![]
        };
        match setting_in(text.subrange(from, end)) {
            Some(s) => seq![s] + rest,
            None => rest,
        }
    }
}

/// Settings by what they hold.
pub open spec fn settings_view(settings: Seq<(String, String)>) -> Seq<Setting> {
    settings.map_values(|s: (String, String)| Setting { key: s.0@, value: s.1@ })
}

/// True for a character that is cut off.
fn edge(c: char, quotes: bool) -> (r: bool)
    ensures
        r == is_edge(c, quotes),
{
    if quotes {
        c == '"'
    } else {
        is_space(c)
    }
}

/// The bounds of what is left of a range when its ends are cut.
fn cut_range(chars: &Vec<char>, from: usize, to: usize, quotes: bool) -> (r: (usize, usize))
    requires
        from <= to <= chars@.len(),
    ensures
        from <= r.0 <= r.1 <= to,
        chars@.subrange(r.0 as int, r.1 as int) == cut(
            chars@.subrange(from as int, to as int),
            quotes,
        ),
{
    let ghost whole = chars@.subrange(from as int, to as int);
    let mut a: usize = from;
    while a < to && edge(chars[a], quotes)
        invariant
            from <= a <= to <= chars@.len(),
            whole == chars@.subrange(from as int, to as int),
            cut_start(whole, quotes) == cut_start(
                chars@.subrange(a as int, to as int),
                quotes,
            ),
        decreases to - a,
    {
        proof {
            let s = chars@.subrange(a as int, to as int);
            assert(s[0] == chars@[a as int]);
            assert(s.drop_first() =~= chars@.subrange(a + 1, to as int));
        }
        a += 1;
    }
    let ghost left = chars@.subrange(a as int, to as int);
    proof {
        if a < to {
            assert(left[0] == chars@[a as int]);
        }
        assert(cut_start(whole, quotes) == left);
    }
    let mut b: usize = to;
    while b > a && edge(chars[b - 1], quotes)
        invariant
            a <= b <= to <= chars@.len(),
            left == chars@.subrange(a as int, to as int),
            cut_end(left, quotes) == cut_end(chars@.subrange(a as int, b as int), quotes),
        decreases b - a,
    {
        proof {
            let s = chars@.subrange(a as int, b as int);
            assert(s.last() == chars@[b - 1]);
            assert(s.drop_last() =~= chars@.subrange(a as int, b - 1));
        }
        b -= 1;
    }
    proof {
        let s = chars@.subrange(a as int, b as int);
        if b > a {
            assert(s.last() == chars@[b - 1]);
        }
    }
    (a, b)
}

/// The setting on one line.
fn read_setting(chars: &Vec<char>, from: usize, to: usize) -> (r: Option<(String, String)>)
    requires
        from <= to <= chars@.len(),
    ensures
        match r {
            Some(s) => setting_in(chars@.subrange(from as int, to as int)) == Some(
                Setting { key: s.0@, value: s.1@ },
            ),
            None => setting_in(chars@.subrange(from as int, to as int)) is None,
        },
{
    let (a, b) = cut_range(chars, from, to, false);
    let ghost text = chars@.subrange(a as int, b as int);
    if a == b || chars[a] == '#' {
        proof {
            if a < b {
                assert(text[0] == chars@[a as int]);
            }
        }
        return None;
    }
    let mut at: usize = a;
    while at < b && chars[at] != '='
        invariant
            a <= at <= b <= chars@.len(),
            text == chars@.subrange(a as int, b as int),
            find_from(text, '=', 0) == find_from(text, '=', at - a),
        decreases b - at,
    {
        assert(text[at - a] == chars@[at as int]);
        at += 1;
    }
    proof {
        assert(text[0] == chars@[a as int]);
        if at < b {
            assert(text[at - a] == chars@[at as int]);
        }
    }
    if at == b {
        return None;
    }
    let (ka, kb) = cut_range(chars, a, at, false);
    let (va, vb) = cut_range(chars, at + 1, b, false);
    let (qa, qb) = cut_range(chars, va, vb, true);
    proof {
        assert(text.take(at - a) =~= chars@.subrange(a as int, at as int));
        assert(text.skip(at - a + 1) =~= chars@.subrange(at + 1, b as int));
    }
    Some((text_of(chars, ka, kb), text_of(chars, qa, qb)))
}

/// The settings in an environment file, in order.
pub fn parse_dotenv(text: &str) -> (r: Vec<(String, String)>)
    ensures
        settings_view(r@) == settings_from(text@, 0),
{
    let chars = chars_of(text);
    let n: usize = chars.len();
    let mut out: Vec<(String, String)> = Vec::new();
    assert(settings_view(out@) =~= Seq::<Setting>::empty());
    let mut from: usize = 0;
    while from < n
        invariant
            chars@ == text@,
            n == chars@.len(),
            from <= n + 1,
            settings_view(out@) + settings_from(text@, from as int) == settings_from(text@, 0),
        decreases n + 1 - from,
    {
        let end: usize = find_char(&chars, '\n', from);
        let ghost before = settings_view(out@);
        let ghost rest = settings_from(text@, end + 1);
        match read_setting(&chars, from, end) {
            Some(s) => {
                let ghost view = Setting { key: s.0@, value: s.1@ };
                out.push(s);
                assert(settings_view(out@) =~= before.push(view));
                assert(before.push(view) + rest =~= before + (seq![view] + rest));
            },
            None => {},
        }
        if end == n {
            assert(rest =~= Seq::<Setting>::empty());
            assert(settings_view(out@) + rest =~= settings_view(out@));
            return out;
        }
        from = end + 1;
    }
    assert(settings_view(out@) + settings_from(text@, from as int) =~= settings_view(out@));
    out
}

// --- the log -----------------------------------------------------------------

/// A text without a word wherever it stands, from left to right.
pub open spec fn without_word(s: Seq<char>, word: Seq<char>) -> Seq<char>
    decreases s.len(),
{
    if s.len() == 0 {
        s
    } else if word.len() > 0 && occurs_at(s, word, 0) {
        without_word(s.skip(word.len() as int), word)
    } else {
        seq![s[0]] + without_word(s.drop_first(), word)
    }
}

/// A path as part of a file name: its separators become underscores.
pub open spec fn flattened(s: Seq<char>) -> Seq<char> {
    s.map_values(
        |c: char|
            if c == '/' || c == '\\' {
                '_'
            } else {
                c
            },
    )
}

/// The name of the log of a configuration.
pub fn log_name(config: &str) -> (r: String)
    ensures
        r@ == "live_trading_rust_"@ + without_word(flattened(config@), ".toml"@) + ".log"@,
{
    let mut chars = chars_of(config);
    let ghost start = chars@;
    let n: usize = chars.len();
    let mut i: usize = 0;
    while i < n
        invariant
            n == start.len(),
            chars@.len() == n,
            i <= n,
            forall|k: int| 0 <= k < i ==> chars@[k] == flattened(start)[k],
            forall|k: int| i <= k < n ==> chars@[k] == start[k],
        decreases n - i,
    {
        if chars[i] == '/' || chars[i] == '\\' {
            chars.set(i, '_');
        }
        i += 1;
    }
    let ghost flat = flattened(start);
    assert(chars@ =~= flat);
    let word = chars_of(".toml");
    proof {
        reveal_strlit(".toml");
    }
    let mut out: Vec<char> = Vec::new();
    let mut at: usize = 0;
    assert(flat.skip(0) =~= flat);
    while at < n
        invariant
            n == flat.len(),
            chars@ == flat,
            word@ == ".toml"@,
            word@.len() == 5,
            at <= n,
            out@ + without_word(flat.skip(at as int), word@) == without_word(flat, word@),
        decreases n - at,
    {
        let ghost rest = flat.skip(at as int);
        let here = matches_at(&chars, &word, at);
        proof {
            assert(here == occurs_at(rest, word@, 0)) by {
                if at + 5 <= n {
                    assert(rest.subrange(0, 5) =~= flat.subrange(at as int, at + 5));
                }
            }
        }
        if here {
            assert(rest.skip(5) =~= flat.skip(at + 5));
            at += 5;
        } else {
            let c = chars[at];
            proof {
                assert(rest[0] == c);
                assert(rest.drop_first() =~= flat.skip(at + 1));
                let tail = without_word(flat.skip(at + 1), word@);
                assert(out@.push(c) + tail =~= out@ + (seq![c] + tail));
            }
            out.push(c);
            at += 1;
        }
    }
    proof {
        assert(flat.skip(at as int).len() == 0);
        assert(out@ + without_word(flat.skip(at as int), word@) =~= out@);
        assert(out@.subrange(0, out@.len() as int) =~= out@);
    }
    let name = text_of(&out, 0, out.len());
    crate::text::join3("live_trading_rust_", name.as_str(), ".log")
}

// --- the mode ----------------------------------------------------------------

/// A letter, in either case.
pub open spec fn letter_of(c: char, lower: char, upper: char) -> bool {
    c == lower || c == upper
}

/// The word "true" in any case.
pub open spec fn says_true(s: Seq<char>) -> bool {
    &&& s.len() == 4
    &&& letter_of(s[0], 't', 'T')
    &&& letter_of(s[1], 'r', 'R')
    &&& letter_of(s[2], 'u', 'U')
    &&& letter_of(s[3], 'e', 'E')
}

/// True for the word "true" in any case.
fn is_true(s: &str) -> (r: bool)
    ensures
        r == says_true(s@),
{
    let c = chars_of(s);
    c.len() == 4 && (c[0] == 't' || c[0] == 'T') && (c[1] == 'r' || c[1] == 'R') && (c[2] == 'u'
        || c[2] == 'U') && (c[3] == 'e' || c[3] == 'E')
}

/// Whether orders are simulated: asked for by flag or by the environment, or
/// because there is nothing to sign real orders with.
pub fn paper_mode(flag: bool, variable: Option<&str>, has_key: bool, has_secret: bool) -> (r: bool)
    ensures
        r == (flag || (variable matches Some(v) && says_true(v@)) || !has_key || !has_secret),
{
    let asked = match variable {
        Some(v) => is_true(v),
        None => false,
    };
    flag || asked || !has_key || !has_secret
}

} // verus!
