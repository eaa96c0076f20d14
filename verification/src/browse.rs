//! The pieces of the local web UI: routing, escaping, query strings, the
//! HTML of pages and panels, and Markdown with `[[wikilinks]]` made links.
//!
//! The server loop and the index queries stand outside the library; they hand
//! rows in and take HTML back.

use vstd::prelude::*;
use vstd::string::StringSliceAdditionalSpecFns;
use vstd::utf8::{decode_utf8, valid_utf8};
use pulldown_cmark::{html, Options, Parser};
use crate::parse::{
    event_views, markdown_events, markdown_events_of, match_views, wikilink_matches,
    wikilink_matches_of, MdEvent, MdKind,
};
use crate::text::{
    split_char, split_char_exec, views, int_str, i64_to_string, decimal, usize_to_string,
};
use crate::text::{
    chars_of, char_index_from, char_index_exec, lemma_char_index_from, join, join_exec, push_str,
    push_all, slice_of, starts_with, starts_with_exec, str_views, string_of, trim, trim_bounds,
    seq_eq, utf8_of,
};

verus! {

// ---------------------------------------------------------------------------
// Small helpers
// ---------------------------------------------------------------------------

/// The HTML escape of one character.
pub open spec fn esc_char(c: char) -> Seq<char> {
    if c == '&' {
        "&amp;"@
    } else if c == '<' {
        "&lt;"@
    } else if c == '>' {
        "&gt;"@
    } else if c == '"' {
        "&quot;"@
    } else {
        seq![c]
    }
}

/// A text with `&`, `<`, `>` and `"` escaped for HTML.
pub open spec fn esc_spec(s: Seq<char>) -> Seq<char>
    decreases s.len(),
{
    if s.len() == 0 {
        Seq::empty()
    } else {
        esc_spec(s.drop_last()) + esc_char(s.last())
    }
}

/// Escape a text for HTML.
pub fn esc(s: &str) -> (r: String)
    ensures
        r@ == esc_spec(s@),
{
    let cs = chars_of(s);
    let mut out: Vec<char> = Vec::new();
    let mut i: usize = 0;
    proof {
        assert(cs@.take(0) =~= Seq::<char>::empty());
    }
    while i < cs.len()
        invariant
            i <= cs@.len(),
            out@ == esc_spec(cs@.take(i as int)),
        decreases cs@.len() - i,
    {
        let c = cs[i];
        if c == '&' {
            push_str(&mut out, "&amp;");
        } else if c == '<' {
            push_str(&mut out, "&lt;");
        } else if c == '>' {
            push_str(&mut out, "&gt;");
        } else if c == '"' {
            push_str(&mut out, "&quot;");
        } else {
            out.push(c);
        }
        proof {
            let t = cs@.take(i + 1);
            assert(t.drop_last() =~= cs@.take(i as int));
            assert(t.last() == c);
            assert(out@ =~= esc_spec(t));
        }
        i += 1;
    }
    proof {
        assert(cs@.take(i as int) =~= cs@);
    }
    string_of(&out)
}

/// A relation type phrased for its direction, so the label reads correctly
/// from the current document's point of view.
pub open spec fn edge_label_spec(edge_type: Seq<char>, outbound: bool) -> Seq<char> {
    if edge_type == "refines"@ {
        if outbound { "refines"@ } else { "refined by"@ }
    } else if edge_type == "part_of"@ {
        if outbound { "part of"@ } else { "has part"@ }
    } else if edge_type == "depends_on"@ {
        if outbound { "depends on"@ } else { "required by"@ }
    } else if edge_type == "references"@ {
        if outbound { "references"@ } else { "referenced by"@ }
    } else if edge_type == "supersedes"@ {
        if outbound { "supersedes"@ } else { "superseded by"@ }
    } else {
        edge_type
    }
}

fn is(a: &Vec<char>, lit: &str) -> (b: bool)
    ensures
        b == (a@ == lit@),
{
    let l = chars_of(lit);
    seq_eq(a, &l)
}

/// A relation type phrased for its direction (`references` outbound,
/// `referenced by` inbound); unknown types read as they are.
pub fn edge_label(edge_type: &str, outbound: bool) -> (r: String)
    ensures
        r@ == edge_label_spec(edge_type@, outbound),
{
    let t = chars_of(edge_type);
    let s: &str = if is(&t, "refines") {
        if outbound { "refines" } else { "refined by" }
    } else if is(&t, "part_of") {
        if outbound { "part of" } else { "has part" }
    } else if is(&t, "depends_on") {
        if outbound { "depends on" } else { "required by" }
    } else if is(&t, "references") {
        if outbound { "references" } else { "referenced by" }
    } else if is(&t, "supersedes") {
        if outbound { "supersedes" } else { "superseded by" }
    } else {
        return edge_type.to_owned();
    };
    s.to_owned()
}

/// The heading of an altitude group.
pub open spec fn altitude_label_spec(alt: i64) -> Seq<char> {
    if alt == 0 {
        "Overview (0)"@
    } else if alt == 1 {
        "Subsystem (1)"@
    } else if alt == 2 {
        "Component (2)"@
    } else {
        "Detail (3)"@
    }
}

/// The heading of an altitude group.
pub fn altitude_label(alt: i64) -> (r: &'static str)
    ensures
        r@ == altitude_label_spec(alt),
{
    if alt == 0 {
        "Overview (0)"
    } else if alt == 1 {
        "Subsystem (1)"
    } else if alt == 2 {
        "Component (2)"
    } else {
        "Detail (3)"
    }
}

/// A body without its own leading `# Title` line (the page renders the title
/// itself): after leading blank characters, a `# ` line is dropped with its
/// newline; a title with no newline after it leaves nothing.
pub open spec fn strip_leading_h1_spec(body: Seq<char>) -> Seq<char> {
    let t = crate::text::trim_start_char(strip_blank_start(body), ' ');
    let trimmed = strip_blank_start(body);
    if starts_with(trimmed, "# "@) {
        let rest = trimmed.skip(2);
        let nl = char_index_from(rest, '\n', 0);
        if nl < rest.len() { rest.skip(nl + 1) } else { Seq::empty() }
    } else {
        body
    }
}

/// A blank character for the leading-title check: newline, carriage return,
/// space or tab.
pub open spec fn is_blank(c: char) -> bool {
    c == '\n' || c == '\r' || c == ' ' || c == '\t'
}

/// `s` without its leading blank characters.
pub open spec fn strip_blank_start(s: Seq<char>) -> Seq<char>
    decreases s.len(),
{
    if s.len() > 0 && is_blank(s[0]) {
        strip_blank_start(s.drop_first())
    } else {
        s
    }
}

/// Drop a leading `# Heading` line from a body.
pub fn strip_leading_h1(body: &str) -> (r: String)
    ensures
        r@ == strip_leading_h1_spec(body@),
{
    let cs = chars_of(body);
    let mut a: usize = 0;
    proof {
        assert(cs@.skip(0) =~= cs@);
    }
    while a < cs.len() && (cs[a] == '\n' || cs[a] == '\r' || cs[a] == ' ' || cs[a] == '\t')
        invariant
            a <= cs@.len(),
            strip_blank_start(cs@) == strip_blank_start(cs@.skip(a as int)),
        decreases cs@.len() - a,
    {
        assert(cs@.skip(a as int).drop_first() =~= cs@.skip(a + 1));
        a += 1;
    }
    let t = slice_of(&cs, a, cs.len());
    assert(t@ =~= cs@.skip(a as int));
    let h = chars_of("# ");
    proof {
        reveal_strlit("# ");
    }
    if starts_with_exec(&t, &h) {
        let nl = char_index_exec(&t, '\n', 2);
        proof {
            lemma_char_index_from(t@, '\n', 2);
            crate::text::lemma_char_index_skip(t@, '\n', 2);
        }
        if nl < t.len() {
            let v = slice_of(&t, nl + 1, t.len());
            proof {
                assert(v@ =~= t@.skip(2).skip(nl - 2 + 1));
            }
            string_of(&v)
        } else {
            String::new()
        }
    } else {
        body.to_owned()
    }
}

// ---------------------------------------------------------------------------
// Search terms
// ---------------------------------------------------------------------------

/// Whether `char::is_alphanumeric` accepts `c` (Unicode letters and numbers).
pub uninterp spec fn unicode_alphanumeric(c: char) -> bool;

/// `char::is_alphanumeric`: `c` is alphabetic or numeric in Unicode. ASCII
/// letters and digits are; the other ASCII characters are not.
#[verifier::external_body]
pub(crate) fn is_alphanumeric(c: char) -> (b: bool)
    ensures
        b == unicode_alphanumeric(c),
        ('0' <= c <= '9' || 'a' <= c <= 'z' || 'A' <= c <= 'Z') ==> b,
        (c as u32) < 128 && !('0' <= c <= '9' || 'a' <= c <= 'z' || 'A' <= c <= 'Z') ==> !b,
{
    c.is_alphanumeric()
}

/// A character that belongs to a search token: alphanumeric, or `_` when
/// underscores join tokens.
pub open spec fn token_char(c: char, underscore: bool) -> bool {
    unicode_alphanumeric(c) || (underscore && c == '_')
}

/// The finished tokens and the token in progress after reading `s`.
pub open spec fn token_fold(s: Seq<char>, underscore: bool) -> (Seq<Seq<char>>, Seq<char>)
    decreases s.len(),
{
    if s.len() == 0 {
        (Seq::empty(), Seq::empty())
    } else {
        let (done, cur) = token_fold(s.drop_last(), underscore);
        let c = s.last();
        if token_char(c, underscore) {
            (done, cur.push(c))
        } else if cur.len() > 0 {
            (done.push(cur), Seq::empty())
        } else {
            (done, Seq::empty())
        }
    }
}

/// The maximal runs of token characters in `s`.
pub open spec fn tokens(s: Seq<char>, underscore: bool) -> Seq<Seq<char>> {
    let (done, cur) = token_fold(s, underscore);
    if cur.len() > 0 { done.push(cur) } else { done }
}

/// Each token wrapped in double quotes.
pub open spec fn quoted_all(ts: Seq<Seq<char>>) -> Seq<Seq<char>> {
    ts.map_values(|t: Seq<char>| seq!['"'] + t + seq!['"'])
}

/// The tokens of `s` (runs of alphanumerics, and of `_` when `underscore`),
/// each in double quotes.
pub fn quoted_tokens(s: &str, underscore: bool) -> (r: Vec<String>)
    ensures
        str_views(r@) == quoted_all(tokens(s@, underscore)),
{
    let cs = chars_of(s);
    let mut done: Vec<String> = Vec::new();
    let mut cur: Vec<char> = Vec::new();
    let mut i: usize = 0;
    proof {
        assert(cs@.take(0) =~= Seq::<char>::empty());
        assert(quoted_all(Seq::<Seq<char>>::empty()) =~= Seq::<Seq<char>>::empty());
        assert(str_views(done@) =~= Seq::<Seq<char>>::empty());
    }
    while i < cs.len()
        invariant
            i <= cs@.len(),
            str_views(done@) == quoted_all(token_fold(cs@.take(i as int), underscore).0),
            cur@ == token_fold(cs@.take(i as int), underscore).1,
        decreases cs@.len() - i,
    {
        let c = cs[i];
        proof {
            assert(cs@.take(i + 1).drop_last() =~= cs@.take(i as int));
            assert(cs@.take(i + 1).last() == c);
        }
        if is_alphanumeric(c) || (underscore && c == '_') {
            cur.push(c);
        } else if cur.len() > 0 {
            let mut q: Vec<char> = Vec::new();
            q.push('"');
            push_all(&mut q, &cur);
            q.push('"');
            let ghost before = str_views(done@);
            let ghost prev = token_fold(cs@.take(i as int), underscore).0;
            done.push(string_of(&q));
            proof {
                assert(q@ =~= seq!['"'] + cur@ + seq!['"']);
                assert(str_views(done@) =~= before.push(q@));
                assert(quoted_all(prev.push(cur@)) =~= quoted_all(prev).push(seq!['"'] + cur@ + seq!['"']));
            }
            cur = Vec::new();
            proof {
                assert(cur@ =~= Seq::<char>::empty());
            }
        } else {
            proof {
                assert(cur@ =~= Seq::<char>::empty());
            }
        }
        i += 1;
    }
    proof {
        assert(cs@.take(i as int) =~= cs@);
    }
    if cur.len() > 0 {
        let mut q: Vec<char> = Vec::new();
        q.push('"');
        push_all(&mut q, &cur);
        q.push('"');
        let ghost before = str_views(done@);
        let ghost prev = token_fold(cs@, underscore).0;
        done.push(string_of(&q));
        proof {
            assert(q@ =~= seq!['"'] + cur@ + seq!['"']);
            assert(str_views(done@) =~= before.push(q@));
            assert(quoted_all(prev.push(cur@)) =~= quoted_all(prev).push(seq!['"'] + cur@ + seq!['"']));
        }
    }
    done
}

/// A safe FTS5 MATCH expression for the browser's search box: alphanumeric
/// tokens, quoted, OR-joined; `None` when the query has none.
pub fn fts_match(q: &str) -> (r: Option<String>)
    ensures
        ({
            let ts = quoted_all(tokens(q@, false));
            if ts.len() == 0 {
                r is None
            } else {
                r matches Some(m) && m@ == join(ts, " OR "@)
            }
        }),
{
    let terms = quoted_tokens(q, false);
    if terms.len() == 0 {
        None
    } else {
        Some(join_exec(&terms, " OR "))
    }
}

// ---------------------------------------------------------------------------
// Query strings and percent-decoding
// ---------------------------------------------------------------------------

/// The value of a hex digit byte.
pub open spec fn hex_value(b: u8) -> Option<u8> {
    if 48 <= b <= 57 {
        Some((b - 48) as u8)
    } else if 97 <= b <= 102 {
        Some((b - 87) as u8)
    } else if 65 <= b <= 70 {
        Some((b - 55) as u8)
    } else {
        None
    }
}

/// Percent-decoded bytes from position `i`: `+` is a space, `%XY` with two hex
/// digits (and a byte after the `%`'s pair) is that byte, anything else stays.
pub open spec fn decode_from(b: Seq<u8>, i: int) -> Seq<u8>
    decreases b.len() - i,
{
    if i < 0 || i >= b.len() {
        Seq::empty()
    } else if b[i] == 43 {
        seq![32u8] + decode_from(b, i + 1)
    } else if b[i] == 37 && i + 2 < b.len() && hex_value(b[i + 1]) is Some && hex_value(b[i + 2]) is Some {
        seq![(hex_value(b[i + 1]).unwrap() * 16 + hex_value(b[i + 2]).unwrap()) as u8] + decode_from(b, i + 3)
    } else {
        seq![b[i]] + decode_from(b, i + 1)
    }
}

/// What `String::from_utf8_lossy` gives for a byte string.
pub uninterp spec fn utf8_lossy(b: Seq<u8>) -> Seq<char>;

/// `String::from_utf8_lossy(..).into_owned()`; valid UTF-8 decodes as it is.
#[verifier::external_body]
pub(crate) fn from_utf8_lossy(b: &[u8]) -> (r: String)
    ensures
        r@ == utf8_lossy(b@),
        valid_utf8(b@) ==> r@ == decode_utf8(b@),
{
    String::from_utf8_lossy(b).into_owned()
}

fn hex_value_exec(b: u8) -> (r: Option<u8>)
    ensures
        r == hex_value(b),
{
    if 48 <= b && b <= 57 {
        Some(b - 48)
    } else if 97 <= b && b <= 102 {
        Some(b - 87)
    } else if 65 <= b && b <= 70 {
        Some(b - 55)
    } else {
        None
    }
}

/// Decode `%XY` escapes and `+` in a URL component.
pub fn percent_decode(s: &str) -> (r: String)
    ensures
        r@ == utf8_lossy(decode_from(s.spec_bytes(), 0)),
        valid_utf8(decode_from(s.spec_bytes(), 0)) ==> r@ == decode_utf8(decode_from(s.spec_bytes(), 0)),
{
    let bytes = s.as_bytes();
    let mut out: Vec<u8> = Vec::new();
    let mut i: usize = 0;
    let n = bytes.len();
    proof {
        assert(out@ + decode_from(bytes@, 0) =~= decode_from(bytes@, 0));
    }
    while i < n
        invariant
            n == bytes@.len(),
            i <= n,
            decode_from(bytes@, 0) == out@ + decode_from(bytes@, i as int),
        decreases n - i,
    {
        let b = bytes[i];
        let ghost before = out@;
        if b == 43 {
            out.push(32);
            proof {
                assert(decode_from(bytes@, i as int) == seq![32u8] + decode_from(bytes@, i + 1));
                assert(out@ + decode_from(bytes@, i + 1) =~= before + decode_from(bytes@, i as int));
            }
            i += 1;
        } else if b == 37 && n - i > 2 {
            let hi = hex_value_exec(bytes[i + 1]);
            let lo = hex_value_exec(bytes[i + 2]);
            match (hi, lo) {
                (Some(h), Some(l)) => {
                    assert(h < 16 && l < 16);
                    let v: u8 = h * 16 + l;
                    out.push(v);
                    proof {
                        assert(decode_from(bytes@, i as int) == seq![v] + decode_from(bytes@, i + 3));
                        assert(out@ + decode_from(bytes@, i + 3) =~= before + decode_from(bytes@, i as int));
                    }
                    i += 3;
                },
                _ => {
                    out.push(37);
                    proof {
                        assert(decode_from(bytes@, i as int) == seq![37u8] + decode_from(bytes@, i + 1));
                        assert(out@ + decode_from(bytes@, i + 1) =~= before + decode_from(bytes@, i as int));
                    }
                    i += 1;
                },
            }
        } else {
            out.push(b);
            proof {
                assert(decode_from(bytes@, i as int) == seq![b] + decode_from(bytes@, i + 1));
                assert(out@ + decode_from(bytes@, i + 1) =~= before + decode_from(bytes@, i as int));
            }
            i += 1;
        }
    }
    proof {
        assert(decode_from(bytes@, i as int) =~= Seq::<u8>::empty());
        assert(out@ + Seq::<u8>::empty() =~= out@);
    }
    from_utf8_lossy(out.as_slice())
}


/// Whether `pair` is `key=...`.
pub open spec fn pair_has_key(pair: Seq<char>, key: Seq<char>) -> bool {
    starts_with(pair, key) && pair.len() > key.len() && pair[key.len() as int] == '='
}

/// The first `key=value` pair's raw value among the `&`-separated pairs.
pub open spec fn param_raw(pairs: Seq<Seq<char>>, key: Seq<char>) -> Option<Seq<char>>
    decreases pairs.len(),
{
    if pairs.len() == 0 {
        None
    } else if pair_has_key(pairs[0], key) {
        Some(pairs[0].skip(key.len() as int + 1))
    } else {
        param_raw(pairs.drop_first(), key)
    }
}

/// The percent-decoded form of a text.
pub open spec fn percent_decoded(s: Seq<char>) -> Seq<char> {
    utf8_lossy(decode_from(utf8_of(s), 0))
}

/// The value of a query-string key, percent-decoded (empty when absent).
pub fn param(query: &str, key: &str) -> (r: String)
    ensures
        r@ == match param_raw(split_char(query@, '&'), key@) {
            Some(v) => percent_decoded(v),
            None => Seq::empty(),
        },
{
    let qc = chars_of(query);
    let kc = chars_of(key);
    let pairs = split_char_exec(&qc, '&');
    let ghost pv = views(pairs@);
    let mut i: usize = 0;
    proof {
        assert(pv.skip(0) =~= pv);
    }
    while i < pairs.len()
        invariant
            i <= pairs@.len(),
            pv == views(pairs@),
            pv == split_char(query@, '&'),
            kc@ == key@,
            param_raw(pv, key@) == param_raw(pv.skip(i as int), key@),
        decreases pairs@.len() - i,
    {
        let p = &pairs[i];
        proof {
            assert(pv.skip(i as int)[0] == p@);
            assert(pv.skip(i as int).drop_first() =~= pv.skip(i + 1));
        }
        if starts_with_exec(p, &kc) && p.len() > kc.len() && p[kc.len()] == '=' {
            let v = slice_of(p, kc.len() + 1, p.len());
            assert(v@ =~= p@.skip(key@.len() as int + 1));
            let vs = string_of(&v);
            return percent_decode(vs.as_str());
        }
        i += 1;
    }
    String::new()
}

/// A page of the web UI.
pub enum Route {
    Index,
    Doc(String),
    Topic(String),
    Search(String),
    Favicon,
    NotFound,
}

/// The page a URL asks for.
pub open spec fn route_spec(url: Seq<char>) -> (int, Seq<char>) {
    let q = char_index_from(url, '?', 0);
    let path = url.take(q);
    let query = if q < url.len() { url.skip(q + 1) } else { Seq::empty() };
    if path == "/"@ {
        (0, Seq::empty())
    } else if starts_with(path, "/doc/"@) {
        (1, percent_decoded(path.skip(5)))
    } else if starts_with(path, "/topic/"@) {
        (2, percent_decoded(path.skip(7)))
    } else if path == "/search"@ {
        (3, match param_raw(split_char(query, '&'), "q"@) {
            Some(v) => percent_decoded(v),
            None => Seq::empty(),
        })
    } else if path == "/favicon.ico"@ {
        (4, Seq::empty())
    } else {
        (5, Seq::empty())
    }
}

/// The model of a route.
pub open spec fn route_view(r: Route) -> (int, Seq<char>) {
    match r {
        Route::Index => (0, Seq::empty()),
        Route::Doc(id) => (1, id@),
        Route::Topic(p) => (2, p@),
        Route::Search(q) => (3, q@),
        Route::Favicon => (4, Seq::empty()),
        Route::NotFound => (5, Seq::empty()),
    }
}

/// The page a URL (path and query string) asks for.
pub fn route(url: &str) -> (r: Route)
    ensures
        route_view(r) == route_spec(url@),
{
    let uc = chars_of(url);
    let q = char_index_exec(&uc, '?', 0);
    proof {
        lemma_char_index_from(uc@, '?', 0);
    }
    let path = slice_of(&uc, 0, q);
    proof {
        assert(path@ =~= uc@.take(q as int));
        reveal_strlit("/doc/");
        reveal_strlit("/topic/");
    }
    let query: Vec<char> = if q < uc.len() {
        let v = slice_of(&uc, q + 1, uc.len());
        assert(v@ =~= uc@.skip(q + 1));
        v
    } else {
        Vec::new()
    };
    if is(&path, "/") {
        return Route::Index;
    }
    let doc = chars_of("/doc/");
    if starts_with_exec(&path, &doc) {
        let rest = slice_of(&path, 5, path.len());
        assert(rest@ =~= path@.skip(5));
        return Route::Doc(percent_decode(string_of(&rest).as_str()));
    }
    let topic = chars_of("/topic/");
    if starts_with_exec(&path, &topic) {
        let rest = slice_of(&path, 7, path.len());
        assert(rest@ =~= path@.skip(7));
        return Route::Topic(percent_decode(string_of(&rest).as_str()));
    }
    if is(&path, "/search") {
        let qs = string_of(&query);
        return Route::Search(param(qs.as_str(), "q"));
    }
    if is(&path, "/favicon.ico") {
        return Route::Favicon;
    }
    Route::NotFound
}

// ---------------------------------------------------------------------------
// Markdown with wikilinks made links
// ---------------------------------------------------------------------------

/// The byte ranges of code spans and code blocks, from an event stream.
pub open spec fn code_fold(evs: Seq<(MdKind, Seq<char>, usize, usize)>) -> (Seq<(usize, usize)>, Option<usize>)
    decreases evs.len(),
{
    if evs.len() == 0 {
        (Seq::empty(), None)
    } else {
        let (rs, open) = code_fold(evs.drop_last());
        let e = evs.last();
        match e.0 {
            MdKind::CodeBlockStart => (rs, Some(e.2)),
            MdKind::CodeBlockEnd => match open {
                Some(s) => (rs.push((s, e.3)), None),
                None => (rs, None),
            },
            MdKind::Code => (rs.push((e.2, e.3)), open),
            _ => (rs, open),
        }
    }
}

/// The byte ranges of code in an event stream.
pub fn code_ranges(events: &Vec<MdEvent>) -> (r: Vec<(usize, usize)>)
    ensures
        r@ == code_fold(event_views(events@)).0,
{
    let ghost evs = event_views(events@);
    let mut ranges: Vec<(usize, usize)> = Vec::new();
    let mut open: Option<usize> = None;
    let mut i: usize = 0;
    proof {
        assert(evs.take(0) =~= Seq::<(MdKind, Seq<char>, usize, usize)>::empty());
    }
    while i < events.len()
        invariant
            i <= events@.len(),
            evs == event_views(events@),
            (ranges@, open) == code_fold(evs.take(i as int)),
        decreases events@.len() - i,
    {
        proof {
            assert(evs.take(i + 1).drop_last() =~= evs.take(i as int));
            assert(evs.take(i + 1).last() == events@[i as int]@);
        }
        let e = &events[i];
        match e.kind {
            MdKind::CodeBlockStart => {
                open = Some(e.start);
            },
            MdKind::CodeBlockEnd => {
                if let Some(s) = open {
                    ranges.push((s, e.end));
                }
                open = None;
            },
            MdKind::Code => {
                ranges.push((e.start, e.end));
            },
            _ => {},
        }
        i += 1;
    }
    proof {
        assert(evs.take(i as int) =~= evs);
    }
    ranges
}

/// Whether a match starting at byte `start` lies inside code.
pub open spec fn in_code(code: Seq<(usize, usize)>, start: usize) -> bool {
    exists|k: int| 0 <= k < code.len() && (#[trigger] code[k]).0 <= start && start < code[k].1
}

/// `s` without `[` and `]`.
pub open spec fn strip_brackets(s: Seq<char>) -> Seq<char>
    decreases s.len(),
{
    if s.len() == 0 {
        Seq::empty()
    } else {
        let r = strip_brackets(s.drop_last());
        if s.last() == '[' || s.last() == ']' { r } else { r.push(s.last()) }
    }
}

/// The Markdown link a `[[id]]` or `[[id|alias]]` body becomes.
pub open spec fn link_markdown(inner: Seq<char>) -> Seq<char> {
    let p = char_index_from(inner, '|', 0);
    let id = trim(inner.take(p));
    let alias = if p < inner.len() { trim(inner.skip(p + 1)) } else { Seq::empty() };
    let label = if alias.len() > 0 { alias } else { id };
    "["@ + strip_brackets(label) + "](/doc/"@ + id + ")"@
}

/// The rewritten bytes: each match outside code replaced by its link, the
/// rest of the source kept.
pub open spec fn rewrite_fold(
    body: Seq<u8>,
    ms: Seq<(usize, usize, Seq<char>)>,
    code: Seq<(usize, usize)>,
) -> (Seq<u8>, int)
    decreases ms.len(),
{
    if ms.len() == 0 {
        (Seq::empty(), 0)
    } else {
        let (out, last) = rewrite_fold(body, ms.drop_last(), code);
        let m = ms.last();
        if in_code(code, m.0) {
            (out, last)
        } else {
            (out + body.subrange(last, m.0 as int) + utf8_of(link_markdown(m.2)), m.1 as int)
        }
    }
}

/// The rewritten source as bytes.
pub open spec fn rewritten(body: Seq<u8>, ms: Seq<(usize, usize, Seq<char>)>, code: Seq<(usize, usize)>) -> Seq<u8> {
    let (out, last) = rewrite_fold(body, ms, code);
    out + body.skip(last)
}

fn link_markdown_exec(inner: &str) -> (r: String)
    ensures
        r@ == link_markdown(inner@),
{
    let cs = chars_of(inner);
    let p = char_index_exec(&cs, '|', 0);
    proof {
        lemma_char_index_from(cs@, '|', 0);
    }
    let (a, b) = trim_bounds(&cs, 0, p);
    proof {
        assert(cs@.take(p as int) =~= cs@.subrange(0, p as int));
    }
    let id = slice_of(&cs, a, b);
    let alias: Vec<char> = if p < cs.len() {
        let (c, d) = trim_bounds(&cs, p + 1, cs.len());
        proof {
            assert(cs@.skip(p + 1) =~= cs@.subrange(p + 1, cs@.len() as int));
        }
        slice_of(&cs, c, d)
    } else {
        Vec::new()
    };
    let label = if alias.len() > 0 { alias } else { slice_of(&id, 0, id.len()) };
    proof {
        assert(id@.subrange(0, id@.len() as int) =~= id@);
    }
    let mut stripped: Vec<char> = Vec::new();
    let mut i: usize = 0;
    proof {
        assert(label@.take(0) =~= Seq::<char>::empty());
    }
    while i < label.len()
        invariant
            i <= label@.len(),
            stripped@ == strip_brackets(label@.take(i as int)),
        decreases label@.len() - i,
    {
        proof {
            assert(label@.take(i + 1).drop_last() =~= label@.take(i as int));
            assert(label@.take(i + 1).last() == label@[i as int]);
        }
        if label[i] != '[' && label[i] != ']' {
            stripped.push(label[i]);
        }
        i += 1;
    }
    proof {
        assert(label@.take(i as int) =~= label@);
    }
    let mut out: Vec<char> = Vec::new();
    out.push('[');
    push_all(&mut out, &stripped);
    push_str(&mut out, "](/doc/");
    push_all(&mut out, &id);
    out.push(')');
    proof {
        reveal_strlit("[");
        reveal_strlit(")");
        assert(out@ =~= "["@ + stripped@ + "](/doc/"@ + id@ + ")"@);
    }
    string_of(&out)
}

fn push_bytes(out: &mut Vec<u8>, b: &[u8], lo: usize, hi: usize)
    requires
        lo <= hi <= b@.len(),
    ensures
        final(out)@ == old(out)@ + b@.subrange(lo as int, hi as int),
{
    let mut i = lo;
    while i < hi
        invariant
            lo <= i <= hi <= b@.len(),
            out@ == old(out)@ + b@.subrange(lo as int, i as int),
        decreases hi - i,
    {
        out.push(b[i]);
        proof {
            assert(b@.subrange(lo as int, i + 1) =~= b@.subrange(lo as int, i as int).push(b@[i as int]));
        }
        i += 1;
    }
}

fn in_code_exec(code: &Vec<(usize, usize)>, start: usize) -> (b: bool)
    ensures
        b == in_code(code@, start),
{
    let mut k: usize = 0;
    while k < code.len()
        invariant
            k <= code@.len(),
            forall|j: int| 0 <= j < k ==> !((#[trigger] code@[j]).0 <= start && start < code@[j].1),
        decreases code@.len() - k,
    {
        if code[k].0 <= start && start < code[k].1 {
            assert(code@[k as int].0 <= start && start < code@[k as int].1);
            return true;
        }
        k += 1;
    }
    false
}

/// Turn prose `[[id]]` / `[[id|alias]]` into `[alias](/doc/id)` links, on the
/// raw source; matches inside code spans and blocks stay literal.
pub fn rewrite_wikilinks(body: &str) -> (r: String)
    ensures
        r@ == utf8_lossy(rewritten(
            body.spec_bytes(),
            wikilink_matches_of(body@),
            code_fold(markdown_events_of(body@)).0,
        )),
{
    let events = markdown_events(body);
    let code = code_ranges(&events);
    let ms = wikilink_matches(body);
    let bytes = body.as_bytes();
    let ghost mv = match_views(ms@);
    let mut out: Vec<u8> = Vec::new();
    let mut last: usize = 0;
    let mut i: usize = 0;
    proof {
        assert(mv.take(0) =~= Seq::<(usize, usize, Seq<char>)>::empty());
    }
    while i < ms.len()
        invariant
            i <= ms@.len(),
            mv == match_views(ms@),
            bytes@ == body.spec_bytes(),
            forall|j: int| 0 <= j < ms@.len() ==> (#[trigger] ms@[j]).start <= ms@[j].end <= bytes@.len(),
            forall|j: int| 0 <= j < ms@.len() - 1 ==> (#[trigger] ms@[j]).end <= ms@[j + 1].start,
            last <= bytes@.len(),
            i < ms@.len() ==> last <= ms@[i as int].start,
            (out@, last as int) == rewrite_fold(bytes@, mv.take(i as int), code@),
        decreases ms@.len() - i,
    {
        let m = &ms[i];
        proof {
            assert(mv.take(i + 1).drop_last() =~= mv.take(i as int));
            assert(mv.take(i + 1).last() == m@);
        }
        if !in_code_exec(&code, m.start) {
            push_bytes(&mut out, bytes, last, m.start);
            let link = link_markdown_exec(m.inner.as_str());
            let lb = link.as_str().as_bytes();
            let n = lb.len();
            push_bytes(&mut out, lb, 0, n);
            proof {
                assert(lb@.subrange(0, n as int) =~= lb@);
            }
            last = m.end;
        }
        proof {
            if i + 1 < ms@.len() {
                assert(ms@[i as int].end <= ms@[i + 1].start);
            }
        }
        i += 1;
    }
    proof {
        assert(mv.take(i as int) =~= mv);
    }
    let n = bytes.len();
    push_bytes(&mut out, bytes, last, n);
    proof {
        assert(bytes@.subrange(last as int, n as int) =~= bytes@.skip(last as int));
    }
    from_utf8_lossy(out.as_slice())
}

/// The HTML pulldown-cmark renders for a Markdown text with tables,
/// strikethrough, task lists and footnotes enabled.
pub uninterp spec fn html_of(md: Seq<char>) -> Seq<char>;

/// `pulldown_cmark::html::push_html` over `Parser::new_ext` with tables,
/// strikethrough, task lists and footnotes enabled.
#[verifier::external_body]
fn markdown_html(md: &str) -> (r: String)
    ensures
        r@ == html_of(md@),
{
    let opts = Options::ENABLE_TABLES | Options::ENABLE_STRIKETHROUGH | Options::ENABLE_TASKLISTS
        | Options::ENABLE_FOOTNOTES;
    let mut out = String::new();
    html::push_html(&mut out, Parser::new_ext(md, opts));
    out
}

/// Render a body to HTML, with `[[wikilinks]]` outside code made links.
pub fn render_markdown(body: &str) -> (r: String)
    ensures
        r@ == html_of(utf8_lossy(rewritten(
            body.spec_bytes(),
            wikilink_matches_of(body@),
            code_fold(markdown_events_of(body@)).0,
        ))),
{
    let rewritten = rewrite_wikilinks(body);
    markdown_html(rewritten.as_str())
}


// ---------------------------------------------------------------------------
// HTML
// ---------------------------------------------------------------------------

/// The page style sheet.
pub const CSS: &'static str = ":root{--fg:#1c1c1e;--muted:#6b6b70;--line:#e4e4e7;--bg:#fff;--accent:#3b5bdb;--soft:#f6f6f7}\n*{box-sizing:border-box}\nbody{margin:0;font:15px/1.6 -apple-system,BlinkMacSystemFont,'Segoe UI',Roboto,sans-serif;color:var(--fg);background:var(--bg)}\na{color:var(--accent);text-decoration:none}a:hover{text-decoration:underline}\n.topbar{display:flex;align-items:center;gap:1rem;padding:.6rem 1.2rem;border-bottom:1px solid var(--line);position:sticky;top:0;background:var(--bg);z-index:1}\n.brand{font-weight:700;font-size:1.05rem;color:var(--fg)}\n.search{margin-left:auto}.search input,form input{padding:.35rem .6rem;border:1px solid var(--line);border-radius:6px;font:inherit;min-width:16rem}\n.layout{display:grid;grid-template-columns:16rem 1fr;align-items:start}\nnav{position:sticky;top:3rem;max-height:calc(100vh - 3rem);overflow:auto;padding:1rem;border-right:1px solid var(--line)}\nnav h3{font-size:.72rem;text-transform:uppercase;letter-spacing:.04em;color:var(--muted);margin:1rem 0 .3rem}\nnav ul{list-style:none;margin:0 0 .6rem;padding:0}nav li{padding:.2rem 0;line-height:1.35}\nnav li.here>a{font-weight:700;color:var(--fg)}\n.content{padding:1.4rem 2.2rem;max-width:82rem}\narticle{display:grid;grid-template-columns:minmax(0,1fr) 19rem;gap:2.6rem;align-items:start}\n.main{min-width:0}.doc{min-width:0}.doc h1,.doc h2,.doc h3{line-height:1.25}\n.doc pre{background:var(--soft);padding:.8rem 1rem;border-radius:8px;overflow:auto}\n.doc code{background:var(--soft);padding:.1em .35em;border-radius:4px;font-size:.9em}\n.doc pre code{background:none;padding:0}\n.doc table{border-collapse:collapse;margin:1rem 0;font-size:.92rem;display:block;overflow-x:auto}\n.doc th,.doc td{border:1px solid var(--line);padding:.4rem .7rem;text-align:left;vertical-align:top}\n.doc th{background:var(--soft);font-weight:600}\n.dochead{border-bottom:1px solid var(--line);margin-bottom:1rem;padding-bottom:.6rem}\n.titlerow{display:flex;justify-content:space-between;align-items:baseline;gap:1rem}\n.titlerow h1{margin:0}\n.dochead .summary{margin:.5rem 0 0;font-size:1rem}\n.summary{color:var(--muted)}\n.crumb{margin:.2rem 0;line-height:1.5}.crumb a{color:var(--fg)}\n.sep{color:var(--muted);margin:0 .15rem}\n.tcount{color:var(--muted);font-size:.7rem;margin-left:.2rem}\nul.cards{list-style:none;padding:0}ul.cards li{padding:.5rem 0;border-bottom:1px solid var(--line)}\nul.cards .summary{display:block;font-size:.9rem}\naside{position:sticky;top:4rem;font-size:.9rem;line-height:1.45}\n.panel{margin-bottom:1.6rem}\n.panel h4{margin:0 0 .5rem;padding-bottom:.3rem;border-bottom:1px solid var(--line);font-size:.7rem;text-transform:uppercase;letter-spacing:.05em;color:var(--muted)}\n.egroup{margin:0 0 .7rem}\n.etype{display:block;font-size:.68rem;text-transform:uppercase;letter-spacing:.04em;color:var(--muted);margin-bottom:.1rem}\n.panel ul{list-style:none;margin:0;padding:0}.panel li{padding:.15rem 0}\n.dangling{color:#b42318}\n.meta{margin-bottom:1rem;display:flex;flex-wrap:wrap;gap:.3rem}\n.badge,.topic{font-size:.72rem;padding:.1rem .5rem;border-radius:999px;background:var(--soft);color:var(--muted)}\n.badge.alt0{background:#e7f0ff;color:#1f4fd6}.badge.alt1{background:#e9f7ee;color:#1f9254}\n.badge.alt2{background:#fff4e6;color:#c2750a}.badge.alt3{background:#f3eefc;color:#7a45c9}\n@media(max-width:900px){.layout{grid-template-columns:1fr}nav{display:none}article{grid-template-columns:1fr}aside{position:static}}\n";

/// A document row for listings: id, title, altitude and summary.
pub struct DocRow {
    pub id: String,
    pub title: String,
    pub altitude: i64,
    pub summary: Option<String>,
}

impl View for DocRow {
    type V = (Seq<char>, Seq<char>, i64, Option<Seq<char>>);

    open spec fn view(&self) -> (Seq<char>, Seq<char>, i64, Option<Seq<char>>) {
        (self.id@, self.title@, self.altitude, crate::model::opt_str(self.summary))
    }
}

/// An edge row for the relation panels: its type, the document at the other
/// end, and that document's title when it exists.
pub struct EdgeRow {
    pub edge_type: String,
    pub other: String,
    pub other_title: Option<String>,
}

impl View for EdgeRow {
    type V = (Seq<char>, Seq<char>, Option<Seq<char>>);

    open spec fn view(&self) -> (Seq<char>, Seq<char>, Option<Seq<char>>) {
        (self.edge_type@, self.other@, crate::model::opt_str(self.other_title))
    }
}

/// The views of a list of document rows.
pub open spec fn doc_rows(v: Seq<DocRow>) -> Seq<(Seq<char>, Seq<char>, i64, Option<Seq<char>>)> {
    v.map_values(|d: DocRow| d@)
}

/// The views of a list of edge rows.
pub open spec fn edge_rows(v: Seq<EdgeRow>) -> Seq<(Seq<char>, Seq<char>, Option<Seq<char>>)> {
    v.map_values(|e: EdgeRow| e@)
}

/// A link to a document.
pub open spec fn doc_link(id: Seq<char>, title: Seq<char>) -> Seq<char> {
    "<a href=\"/doc/"@ + esc_spec(id) + "\">"@ + esc_spec(title) + "</a>"@
}

fn doc_link_exec(out: &mut Vec<char>, id: &str, title: &str)
    ensures
        final(out)@ == old(out)@ + doc_link(id@, title@),
{
    push_str(out, "<a href=\"/doc/");
    push_str(out, esc(id).as_str());
    push_str(out, "\">");
    push_str(out, esc(title).as_str());
    push_str(out, "</a>");
}

/// A document card: its link and, when it has one, its summary.
pub open spec fn doc_card_spec(d: (Seq<char>, Seq<char>, i64, Option<Seq<char>>)) -> Seq<char> {
    "<li>"@ + doc_link(d.0, d.1) + match d.3 {
        Some(s) => "<span class=summary>"@ + esc_spec(s) + "</span>"@,
        None => Seq::empty(),
    } + "</li>"@
}

/// The card of a document in a listing.
pub fn doc_card(d: &DocRow) -> (r: String)
    ensures
        r@ == doc_card_spec(d@),
{
    let mut out: Vec<char> = Vec::new();
    push_str(&mut out, "<li>");
    doc_link_exec(&mut out, d.id.as_str(), d.title.as_str());
    match &d.summary {
        Some(s) => {
            push_str(&mut out, "<span class=summary>");
            push_str(&mut out, esc(s.as_str()).as_str());
            push_str(&mut out, "</span>");
        },
        None => {},
    }
    push_str(&mut out, "</li>");
    string_of(&out)
}

/// The concatenation of a run of texts.
pub open spec fn concat(parts: Seq<Seq<char>>) -> Seq<char>
    decreases parts.len(),
{
    if parts.len() == 0 {
        Seq::empty()
    } else {
        concat(parts.drop_last()) + parts.last()
    }
}

/// The list items linking each document.
pub open spec fn doc_items(ds: Seq<(Seq<char>, Seq<char>, i64, Option<Seq<char>>)>) -> Seq<char> {
    concat(ds.map_values(|d: (Seq<char>, Seq<char>, i64, Option<Seq<char>>)| "<li>"@ + doc_link(d.0, d.1) + "</li>"@))
}

/// A side panel listing documents (empty when there are none).
pub open spec fn doc_list_section_spec(label: Seq<char>, ds: Seq<(Seq<char>, Seq<char>, i64, Option<Seq<char>>)>) -> Seq<char> {
    if ds.len() == 0 {
        Seq::empty()
    } else {
        "<div class=panel><h4>"@ + esc_spec(label) + "</h4><ul>"@ + doc_items(ds) + "</ul></div>"@
    }
}

/// A side panel listing documents.
pub fn doc_list_section(label: &str, docs: &Vec<DocRow>) -> (r: String)
    ensures
        r@ == doc_list_section_spec(label@, doc_rows(docs@)),
{
    if docs.len() == 0 {
        return String::new();
    }
    let mut items: Vec<char> = Vec::new();
    let ghost dv = doc_rows(docs@);
    let mut i: usize = 0;
    proof {
        assert(dv.take(0).map_values(|d: (Seq<char>, Seq<char>, i64, Option<Seq<char>>)| "<li>"@ + doc_link(d.0, d.1) + "</li>"@) =~= Seq::<Seq<char>>::empty());
    }
    while i < docs.len()
        invariant
            i <= docs@.len(),
            dv == doc_rows(docs@),
            items@ == doc_items(dv.take(i as int)),
        decreases docs@.len() - i,
    {
        push_str(&mut items, "<li>");
        doc_link_exec(&mut items, docs[i].id.as_str(), docs[i].title.as_str());
        push_str(&mut items, "</li>");
        proof {
            let f = |d: (Seq<char>, Seq<char>, i64, Option<Seq<char>>)| "<li>"@ + doc_link(d.0, d.1) + "</li>"@;
            assert(dv.take(i + 1).map_values(f) =~= dv.take(i as int).map_values(f).push(f(dv[i as int])));
            assert(dv.take(i + 1).map_values(f).drop_last() =~= dv.take(i as int).map_values(f));
        }
        i += 1;
    }
    proof {
        assert(dv.take(i as int) =~= dv);
    }
    let mut out: Vec<char> = Vec::new();
    push_str(&mut out, "<div class=panel><h4>");
    push_str(&mut out, esc(label).as_str());
    push_str(&mut out, "</h4><ul>");
    push_all(&mut out, &items);
    push_str(&mut out, "</ul></div>");
    string_of(&out)
}

/// One edge's list item: a link, or a dangling marker when the other
/// document is missing.
pub open spec fn edge_item(e: (Seq<char>, Seq<char>, Option<Seq<char>>)) -> Seq<char> {
    match e.2 {
        Some(t) => "<li>"@ + doc_link(e.1, t) + "</li>"@,
        None => "<li class=dangling>"@ + esc_spec(e.1) + " (missing)</li>"@,
    }
}

/// The HTML of the groups of consecutive same-type edges: the finished
/// groups' HTML, and the open group's type and items.
pub open spec fn edge_fold(es: Seq<(Seq<char>, Seq<char>, Option<Seq<char>>)>, outbound: bool) -> (Seq<char>, Seq<char>, Seq<char>)
    decreases es.len(),
{
    if es.len() == 0 {
        (Seq::empty(), Seq::empty(), Seq::empty())
    } else {
        let (done, t, items) = edge_fold(es.drop_last(), outbound);
        let e = es.last();
        if es.len() > 1 && t == e.0 {
            (done, t, items + edge_item(e))
        } else if es.len() > 1 {
            (done + edge_group(t, items, outbound), e.0, edge_item(e))
        } else {
            (done, e.0, edge_item(e))
        }
    }
}

/// One group of edges under its direction-aware type label.
pub open spec fn edge_group(t: Seq<char>, items: Seq<char>, outbound: bool) -> Seq<char> {
    "<div class=egroup><span class=etype>"@ + esc_spec(edge_label_spec(t, outbound)) + "</span><ul>"@ + items + "</ul></div>"@
}

/// A relation panel: edges grouped by consecutive type (empty when there are
/// none).
pub open spec fn edge_section_spec(label: Seq<char>, es: Seq<(Seq<char>, Seq<char>, Option<Seq<char>>)>, outbound: bool) -> Seq<char> {
    if es.len() == 0 {
        Seq::empty()
    } else {
        let (done, t, items) = edge_fold(es, outbound);
        "<div class=panel><h4>"@ + esc_spec(label) + "</h4>"@ + done + edge_group(t, items, outbound) + "</div>"@
    }
}

fn edge_item_exec(out: &mut Vec<char>, e: &EdgeRow)
    ensures
        final(out)@ == old(out)@ + edge_item(e@),
{
    match &e.other_title {
        Some(t) => {
            push_str(out, "<li>");
            doc_link_exec(out, e.other.as_str(), t.as_str());
            push_str(out, "</li>");
        },
        None => {
            push_str(out, "<li class=dangling>");
            push_str(out, esc(e.other.as_str()).as_str());
            push_str(out, " (missing)</li>");
        },
    }
}

fn edge_group_exec(out: &mut Vec<char>, t: &str, items: &Vec<char>, outbound: bool)
    ensures
        final(out)@ == old(out)@ + edge_group(t@, items@, outbound),
{
    push_str(out, "<div class=egroup><span class=etype>");
    let l = edge_label(t, outbound);
    push_str(out, esc(l.as_str()).as_str());
    push_str(out, "</span><ul>");
    push_all(out, items);
    push_str(out, "</ul></div>");
}

/// A relation panel, the edges grouped by consecutive type under a label read
/// in the panel's direction.
pub fn edge_section(label: &str, edges: &Vec<EdgeRow>, outbound: bool) -> (r: String)
    ensures
        r@ == edge_section_spec(label@, edge_rows(edges@), outbound),
{
    if edges.len() == 0 {
        return String::new();
    }
    let ghost ev = edge_rows(edges@);
    let mut done: Vec<char> = Vec::new();
    let mut t: String = String::new();
    let mut items: Vec<char> = Vec::new();
    let mut i: usize = 0;
    proof {
        assert(ev.take(0) =~= Seq::<(Seq<char>, Seq<char>, Option<Seq<char>>)>::empty());
    }
    while i < edges.len()
        invariant
            i <= edges@.len(),
            ev == edge_rows(edges@),
            (done@, t@, items@) == edge_fold(ev.take(i as int), outbound),
        decreases edges@.len() - i,
    {
        proof {
            assert(ev.take(i + 1).drop_last() =~= ev.take(i as int));
            assert(ev.take(i + 1).last() == edges@[i as int]@);
        }
        let e = &edges[i];
        if i > 0 && t == e.edge_type {
            edge_item_exec(&mut items, e);
        } else {
            if i > 0 {
                edge_group_exec(&mut done, t.as_str(), &items, outbound);
            }
            t = e.edge_type.clone();
            items = Vec::new();
            edge_item_exec(&mut items, e);
            proof {
                assert(Seq::<char>::empty() + edge_item(e@) =~= edge_item(e@));
            }
        }
        i += 1;
    }
    proof {
        assert(ev.take(i as int) =~= ev);
    }
    let mut out: Vec<char> = Vec::new();
    push_str(&mut out, "<div class=panel><h4>");
    push_str(&mut out, esc(label).as_str());
    push_str(&mut out, "</h4>");
    push_all(&mut out, &done);
    edge_group_exec(&mut out, t.as_str(), &items, outbound);
    push_str(&mut out, "</div>");
    string_of(&out)
}

/// The whole page around its main content and the navigation sidebar.
pub open spec fn page_spec(title: Seq<char>, sidebar: Seq<char>, main: Seq<char>) -> Seq<char> {
    "<!doctype html><html lang=en><head><meta charset=utf-8><meta name=viewport content=\"width=device-width,initial-scale=1\"><title>"@
        + esc_spec(title) + " · engrym</title><style>"@ + CSS@
        + "</style></head><body><header class=topbar><a href=/ class=brand>engrym</a><form action=/search class=search><input name=q placeholder=search></form></header><div class=layout><nav>"@
        + sidebar + "</nav><section class=content>"@ + main + "</section></div></body></html>"@
}

/// The whole page around its main content and the navigation sidebar.
pub fn page(title: &str, sidebar: &str, main: &str) -> (r: String)
    ensures
        r@ == page_spec(title@, sidebar@, main@),
{
    let mut out: Vec<char> = Vec::new();
    push_str(&mut out, "<!doctype html><html lang=en><head><meta charset=utf-8><meta name=viewport content=\"width=device-width,initial-scale=1\"><title>");
    push_str(&mut out, esc(title).as_str());
    push_str(&mut out, " · engrym</title><style>");
    push_str(&mut out, CSS);
    push_str(&mut out, "</style></head><body><header class=topbar><a href=/ class=brand>engrym</a><form action=/search class=search><input name=q placeholder=search></form></header><div class=layout><nav>");
    push_str(&mut out, sidebar);
    push_str(&mut out, "</nav><section class=content>");
    push_str(&mut out, main);
    push_str(&mut out, "</section></div></body></html>");
    string_of(&out)
}

/// The documents at altitude `alt`, in order.
pub open spec fn at_altitude(ds: Seq<(Seq<char>, Seq<char>, i64, Option<Seq<char>>)>, alt: i64) -> Seq<(Seq<char>, Seq<char>, i64, Option<Seq<char>>)>
    decreases ds.len(),
{
    if ds.len() == 0 {
        Seq::empty()
    } else if ds.last().2 == alt {
        at_altitude(ds.drop_last(), alt).push(ds.last())
    } else {
        at_altitude(ds.drop_last(), alt)
    }
}

/// The cards of a run of documents.
pub open spec fn cards(ds: Seq<(Seq<char>, Seq<char>, i64, Option<Seq<char>>)>) -> Seq<char> {
    concat(ds.map_values(|d: (Seq<char>, Seq<char>, i64, Option<Seq<char>>)| doc_card_spec(d)))
}

fn cards_at(docs: &Vec<DocRow>, alt: i64) -> (r: Vec<char>)
    ensures
        r@ == cards(at_altitude(doc_rows(docs@), alt)),
{
    let ghost dv = doc_rows(docs@);
    let mut out: Vec<char> = Vec::new();
    let mut i: usize = 0;
    proof {
        assert(dv.take(0) =~= Seq::<(Seq<char>, Seq<char>, i64, Option<Seq<char>>)>::empty());
        assert(at_altitude(dv.take(0), alt).map_values(|d: (Seq<char>, Seq<char>, i64, Option<Seq<char>>)| doc_card_spec(d)) =~= Seq::<Seq<char>>::empty());
    }
    while i < docs.len()
        invariant
            i <= docs@.len(),
            dv == doc_rows(docs@),
            out@ == cards(at_altitude(dv.take(i as int), alt)),
        decreases docs@.len() - i,
    {
        proof {
            assert(dv.take(i + 1).drop_last() =~= dv.take(i as int));
            assert(dv.take(i + 1).last() == docs@[i as int]@);
        }
        if docs[i].altitude == alt {
            let c = doc_card(&docs[i]);
            push_str(&mut out, c.as_str());
            proof {
                let f = |d: (Seq<char>, Seq<char>, i64, Option<Seq<char>>)| doc_card_spec(d);
                let a = at_altitude(dv.take(i as int), alt);
                assert(a.push(docs@[i as int]@).map_values(f) =~= a.map_values(f).push(f(docs@[i as int]@)));
                assert(a.push(docs@[i as int]@).map_values(f).drop_last() =~= a.map_values(f));
            }
        }
        i += 1;
    }
    proof {
        assert(dv.take(i as int) =~= dv);
    }
    out
}

/// The home page's main content: cards grouped by altitude.
pub open spec fn index_main_spec(ds: Seq<(Seq<char>, Seq<char>, i64, Option<Seq<char>>)>) -> Seq<char> {
    "<h1>Knowledge base</h1>"@ + altitude_block(ds, 0) + altitude_block(ds, 1) + altitude_block(ds, 2) + altitude_block(ds, 3)
}

/// One altitude's cards under its heading (empty when it has none).
pub open spec fn altitude_block(ds: Seq<(Seq<char>, Seq<char>, i64, Option<Seq<char>>)>, alt: i64) -> Seq<char> {
    let c = cards(at_altitude(ds, alt));
    if c.len() == 0 {
        Seq::empty()
    } else {
        "<h2>"@ + altitude_label_spec(alt) + "</h2><ul class=cards>"@ + c + "</ul>"@
    }
}

/// The home page's main content: every document's card, grouped by altitude.
pub fn index_main(docs: &Vec<DocRow>) -> (r: String)
    ensures
        r@ == index_main_spec(doc_rows(docs@)),
{
    let mut out: Vec<char> = Vec::new();
    push_str(&mut out, "<h1>Knowledge base</h1>");
    let mut alt: i64 = 0;
    let ghost dv = doc_rows(docs@);
    while alt <= 3
        invariant
            0 <= alt <= 4,
            dv == doc_rows(docs@),
            out@ == "<h1>Knowledge base</h1>"@ + (if alt > 0 { altitude_block(dv, 0) } else { Seq::empty() })
                + (if alt > 1 { altitude_block(dv, 1) } else { Seq::empty() })
                + (if alt > 2 { altitude_block(dv, 2) } else { Seq::empty() })
                + (if alt > 3 { altitude_block(dv, 3) } else { Seq::empty() }),
        decreases 4 - alt,
    {
        let ghost before = out@;
        let c = cards_at(docs, alt);
        if c.len() > 0 {
            push_str(&mut out, "<h2>");
            push_str(&mut out, altitude_label(alt));
            push_str(&mut out, "</h2><ul class=cards>");
            push_all(&mut out, &c);
            push_str(&mut out, "</ul>");
        }
        proof {
            assert(out@ =~= before + altitude_block(dv, alt));
        }
        alt += 1;
    }
    string_of(&out)
}


/// A sidebar entry, marked when it is the page being shown.
pub open spec fn sidebar_item(d: (Seq<char>, Seq<char>, i64, Option<Seq<char>>), current: Option<Seq<char>>) -> Seq<char> {
    "<li"@ + (if current == Some(d.0) { " class=here"@ } else { Seq::empty() }) + ">"@ + doc_link(d.0, d.1) + "</li>"@
}

/// One altitude's sidebar group (empty when it has no documents).
pub open spec fn sidebar_group(ds: Seq<(Seq<char>, Seq<char>, i64, Option<Seq<char>>)>, alt: i64, current: Option<Seq<char>>) -> Seq<char> {
    let g = at_altitude(ds, alt);
    if g.len() == 0 {
        Seq::empty()
    } else {
        "<h3>"@ + altitude_label_spec(alt) + "</h3><ul>"@ + concat(
            g.map_values(|d: (Seq<char>, Seq<char>, i64, Option<Seq<char>>)| sidebar_item(d, current)),
        ) + "</ul>"@
    }
}

/// The navigation sidebar: documents grouped by altitude.
pub open spec fn sidebar_spec(ds: Seq<(Seq<char>, Seq<char>, i64, Option<Seq<char>>)>, current: Option<Seq<char>>) -> Seq<char> {
    sidebar_group(ds, 0, current) + sidebar_group(ds, 1, current) + sidebar_group(ds, 2, current) + sidebar_group(ds, 3, current)
}

fn sidebar_group_exec(out: &mut Vec<char>, docs: &Vec<DocRow>, alt: i64, current: Option<&str>)
    ensures
        final(out)@ == old(out)@ + sidebar_group(doc_rows(docs@), alt, match current {
            Some(c) => Some(c@),
            None => None,
        }),
{
    let ghost cur = match current {
        Some(c) => Some(c@),
        None => None::<Seq<char>>,
    };
    let ghost dv = doc_rows(docs@);
    let ghost f = |d: (Seq<char>, Seq<char>, i64, Option<Seq<char>>)| sidebar_item(d, cur);
    let mut items: Vec<char> = Vec::new();
    let mut count: usize = 0;
    let mut i: usize = 0;
    proof {
        assert(dv.take(0) =~= Seq::<(Seq<char>, Seq<char>, i64, Option<Seq<char>>)>::empty());
        assert(at_altitude(dv.take(0), alt).map_values(f) =~= Seq::<Seq<char>>::empty());
    }
    while i < docs.len()
        invariant
            i <= docs@.len(),
            dv == doc_rows(docs@),
            cur == match current {
                Some(c) => Some(c@),
                None => None::<Seq<char>>,
            },
            f == |d: (Seq<char>, Seq<char>, i64, Option<Seq<char>>)| sidebar_item(d, cur),
            items@ == concat(at_altitude(dv.take(i as int), alt).map_values(f)),
            count == at_altitude(dv.take(i as int), alt).len(),
            count <= i,
        decreases docs@.len() - i,
    {
        proof {
            assert(dv.take(i + 1).drop_last() =~= dv.take(i as int));
            assert(dv.take(i + 1).last() == docs@[i as int]@);
        }
        let d = &docs[i];
        if d.altitude == alt {
            let here = match current {
                Some(c) => {
                    let cc = chars_of(c);
                    let ic = chars_of(d.id.as_str());
                    seq_eq(&cc, &ic)
                },
                None => false,
            };
            push_str(&mut items, "<li");
            if here {
                push_str(&mut items, " class=here");
            }
            push_str(&mut items, ">");
            doc_link_exec(&mut items, d.id.as_str(), d.title.as_str());
            push_str(&mut items, "</li>");
            proof {
                let a = at_altitude(dv.take(i as int), alt);
                assert(items@ =~= concat(a.map_values(f)) + f(d@));
                assert(a.push(d@).map_values(f) =~= a.map_values(f).push(f(d@)));
                assert(a.push(d@).map_values(f).drop_last() =~= a.map_values(f));
            }
            count += 1;
        }
        i += 1;
    }
    proof {
        assert(dv.take(i as int) =~= dv);
    }
    if count > 0 {
        push_str(out, "<h3>");
        push_str(out, altitude_label(alt));
        push_str(out, "</h3><ul>");
        push_all(out, &items);
        push_str(out, "</ul>");
    } else {
        proof {
            assert(old(out)@ + Seq::<char>::empty() =~= old(out)@);
        }
    }
}

/// The navigation sidebar, marking the document being shown.
pub fn sidebar(docs: &Vec<DocRow>, current: Option<&str>) -> (r: String)
    ensures
        r@ == sidebar_spec(doc_rows(docs@), match current {
            Some(c) => Some(c@),
            None => None,
        }),
{
    let mut out: Vec<char> = Vec::new();
    sidebar_group_exec(&mut out, docs, 0, current);
    sidebar_group_exec(&mut out, docs, 1, current);
    sidebar_group_exec(&mut out, docs, 2, current);
    sidebar_group_exec(&mut out, docs, 3, current);
    proof {
        let cur = match current {
            Some(c) => Some(c@),
            None => None::<Seq<char>>,
        };
        assert(out@ =~= sidebar_spec(doc_rows(docs@), cur));
    }
    string_of(&out)
}

fn all_cards(docs: &Vec<DocRow>) -> (r: Vec<char>)
    ensures
        r@ == cards(doc_rows(docs@)),
{
    let ghost dv = doc_rows(docs@);
    let ghost f = |d: (Seq<char>, Seq<char>, i64, Option<Seq<char>>)| doc_card_spec(d);
    let mut out: Vec<char> = Vec::new();
    let mut i: usize = 0;
    proof {
        assert(dv.take(0).map_values(f) =~= Seq::<Seq<char>>::empty());
    }
    while i < docs.len()
        invariant
            i <= docs@.len(),
            dv == doc_rows(docs@),
            f == |d: (Seq<char>, Seq<char>, i64, Option<Seq<char>>)| doc_card_spec(d),
            out@ == concat(dv.take(i as int).map_values(f)),
        decreases docs@.len() - i,
    {
        let c = doc_card(&docs[i]);
        push_str(&mut out, c.as_str());
        proof {
            assert(dv.take(i + 1).map_values(f) =~= dv.take(i as int).map_values(f).push(f(dv[i as int])));
            assert(dv.take(i + 1).map_values(f).drop_last() =~= dv.take(i as int).map_values(f));
        }
        i += 1;
    }
    proof {
        assert(dv.take(i as int) =~= dv);
    }
    out
}

/// A topic page's main content.
pub open spec fn topic_main_spec(prefix: Seq<char>, ds: Seq<(Seq<char>, Seq<char>, i64, Option<Seq<char>>)>) -> Seq<char> {
    "<h1>Topic: <code>"@ + esc_spec(prefix) + "</code></h1>"@ + if ds.len() == 0 {
        "<p>No documents under this topic.</p>"@
    } else {
        "<p class=summary>"@ + decimal(ds.len()) + " document(s) at or below this topic.</p><ul class=cards>"@ + cards(ds) + "</ul>"@
    }
}

/// A topic page's main content: the documents at or below the topic.
pub fn topic_main(prefix: &str, docs: &Vec<DocRow>) -> (r: String)
    ensures
        r@ == topic_main_spec(prefix@, doc_rows(docs@)),
{
    let mut out: Vec<char> = Vec::new();
    push_str(&mut out, "<h1>Topic: <code>");
    push_str(&mut out, esc(prefix).as_str());
    push_str(&mut out, "</code></h1>");
    if docs.len() == 0 {
        push_str(&mut out, "<p>No documents under this topic.</p>");
    } else {
        push_str(&mut out, "<p class=summary>");
        push_str(&mut out, usize_to_string(docs.len()).as_str());
        push_str(&mut out, " document(s) at or below this topic.</p><ul class=cards>");
        let c = all_cards(docs);
        push_all(&mut out, &c);
        push_str(&mut out, "</ul>");
    }
    string_of(&out)
}

/// The search page's main content.
pub open spec fn search_main_spec(q: Seq<char>, hits: Seq<(Seq<char>, Seq<char>, i64, Option<Seq<char>>)>) -> Seq<char> {
    "<h1>Search</h1><form action=/search><input name=q value=\""@ + esc_spec(q)
        + "\" placeholder=\"search the KB\" autofocus></form>"@ + if trim(q).len() == 0 {
        Seq::empty()
    } else if hits.len() == 0 {
        "<p>No matches for “"@ + esc_spec(q) + "”.</p>"@
    } else {
        "<ul class=cards>"@ + cards(hits) + "</ul>"@
    }
}

/// The search page's main content: the form and, for a non-blank query, its
/// hits.
pub fn search_main(q: &str, hits: &Vec<DocRow>) -> (r: String)
    ensures
        r@ == search_main_spec(q@, doc_rows(hits@)),
{
    let mut out: Vec<char> = Vec::new();
    push_str(&mut out, "<h1>Search</h1><form action=/search><input name=q value=\"");
    push_str(&mut out, esc(q).as_str());
    push_str(&mut out, "\" placeholder=\"search the KB\" autofocus></form>");
    let qc = chars_of(q);
    let (a, b) = trim_bounds(&qc, 0, qc.len());
    proof {
        assert(qc@.subrange(0, qc@.len() as int) =~= qc@);
    }
    if b > a {
        if hits.len() == 0 {
            push_str(&mut out, "<p>No matches for “");
            push_str(&mut out, esc(q).as_str());
            push_str(&mut out, "”.</p>");
        } else {
            push_str(&mut out, "<ul class=cards>");
            let c = all_cards(hits);
            push_all(&mut out, &c);
            push_str(&mut out, "</ul>");
        }
    }
    string_of(&out)
}

/// A document page's main content: the title row with the altitude badge,
/// the summary, the rendered body and the side panels.
pub open spec fn doc_main_spec(title: Seq<char>, altitude: i64, summary: Option<Seq<char>>, body_html: Seq<char>, aside: Seq<char>) -> Seq<char> {
    "<article><div class=main><header class=dochead><div class=titlerow><h1>"@ + esc_spec(title)
        + "</h1><span class=\"badge alt"@ + int_str(altitude as int) + "\">"@ + altitude_label_spec(altitude)
        + "</span></div>"@ + match summary {
        Some(s) => "<p class=summary>"@ + esc_spec(s) + "</p>"@,
        None => Seq::empty(),
    } + "</header><div class=doc>"@ + body_html + "</div></div><aside>"@ + aside + "</aside></article>"@
}

/// A document page's main content.
pub fn doc_main(title: &str, altitude: i64, summary: Option<&str>, body_html: &str, aside: &str) -> (r: String)
    ensures
        r@ == doc_main_spec(title@, altitude, match summary {
            Some(s) => Some(s@),
            None => None,
        }, body_html@, aside@),
{
    let mut out: Vec<char> = Vec::new();
    push_str(&mut out, "<article><div class=main><header class=dochead><div class=titlerow><h1>");
    push_str(&mut out, esc(title).as_str());
    push_str(&mut out, "</h1><span class=\"badge alt");
    push_str(&mut out, i64_to_string(altitude).as_str());
    push_str(&mut out, "\">");
    push_str(&mut out, altitude_label(altitude));
    push_str(&mut out, "</span></div>");
    match summary {
        Some(s) => {
            push_str(&mut out, "<p class=summary>");
            push_str(&mut out, esc(s).as_str());
            push_str(&mut out, "</p>");
        },
        None => {},
    }
    push_str(&mut out, "</header><div class=doc>");
    push_str(&mut out, body_html);
    push_str(&mut out, "</div></div><aside>");
    push_str(&mut out, aside);
    push_str(&mut out, "</aside></article>");
    string_of(&out)
}

/// The prefixes a topic's breadcrumb links: each leading run of its
/// `/`-separated segments.
pub open spec fn crumb_prefixes_spec(topic: Seq<char>) -> Seq<Seq<char>> {
    let segs = split_char(topic, '/');
    Seq::new(segs.len(), |k: int| join(segs.take(k + 1), "/"@))
}

/// The prefixes of a topic's breadcrumb, whose document counts the panel
/// shows.
pub fn crumb_prefixes(topic: &str) -> (r: Vec<String>)
    ensures
        str_views(r@) == crumb_prefixes_spec(topic@),
{
    let cs = chars_of(topic);
    let segs = split_char_exec(&cs, '/');
    let ghost sv = views(segs@);
    let mut out: Vec<String> = Vec::new();
    let mut acc: Vec<char> = Vec::new();
    let mut k: usize = 0;
    proof {
        assert(sv.take(0) =~= Seq::<Seq<char>>::empty());
        reveal_strlit("/");
    }
    while k < segs.len()
        invariant
            k <= segs@.len(),
            sv == views(segs@),
            sv == split_char(topic@, '/'),
            "/"@ == seq!['/'],
            acc@ == join(sv.take(k as int), "/"@),
            out@.len() == k,
            forall|j: int| 0 <= j < k ==> #[trigger] out@[j]@ == join(sv.take(j + 1), "/"@),
        decreases segs@.len() - k,
    {
        if k > 0 {
            acc.push('/');
        }
        push_all(&mut acc, &segs[k]);
        proof {
            let t = sv.take(k + 1);
            assert(t.drop_last() =~= sv.take(k as int));
            assert(t.last() == segs@[k as int]@);
            if k == 0 {
                assert(t.len() == 1);
                assert(acc@ =~= t[0]);
            } else {
                assert(acc@ =~= join(sv.take(k as int), "/"@) + "/"@ + t.last());
            }
        }
        out.push(string_of(&acc));
        k += 1;
    }
    proof {
        assert(str_views(out@) =~= crumb_prefixes_spec(topic@));
    }
    out
}


/// One breadcrumb segment: a separator after the first, a link to the
/// prefix it ends, and the number of documents at or below that prefix.
pub open spec fn crumb_part(seg: Seq<char>, prefix: Seq<char>, count: i64, first: bool) -> Seq<char> {
    (if first { ""@ } else { "<span class=sep>/</span>"@ }) + "<a href=\"/topic/"@ + esc_spec(prefix) + "\">"@
        + esc_spec(seg) + "</a><span class=tcount>"@ + int_str(count as int) + "</span>"@
}

/// A topic's breadcrumb row; `counts[j]` is the count for its `j`th prefix.
pub open spec fn crumb_row(topic: Seq<char>, counts: Seq<i64>) -> Seq<char> {
    let segs = split_char(topic, '/');
    let pre = crumb_prefixes_spec(topic);
    "<div class=crumb>"@ + concat(Seq::new(segs.len(), |j: int| crumb_part(segs[j], pre[j], counts[j], j == 0)))
        + "</div>"@
}

/// The topics panel of a document page: one breadcrumb row per topic
/// (`counts[i]` holds topic `i`'s prefix counts); empty without topics.
pub open spec fn topics_panel_spec(topics: Seq<Seq<char>>, counts: Seq<Seq<i64>>) -> Seq<char> {
    if topics.len() == 0 {
        ""@
    } else {
        "<div class=panel><h4>Topics</h4>"@ + concat(Seq::new(topics.len(), |i: int| crumb_row(topics[i], counts[i])))
            + "</div>"@
    }
}

fn crumb_row_exec(topic: &String, counts: &Vec<i64>) -> (r: String)
    requires
        counts@.len() == split_char(topic@, '/').len(),
    ensures
        r@ == crumb_row(topic@, counts@),
{
    let cs = chars_of(topic.as_str());
    let segs = split_char_exec(&cs, '/');
    let pre = crumb_prefixes(topic.as_str());
    let ghost sv = views(segs@);
    let ghost parts = Seq::new(sv.len(), |j: int| crumb_part(sv[j], crumb_prefixes_spec(topic@)[j], counts@[j], j == 0));
    let mut out: Vec<char> = Vec::new();
    push_str(&mut out, "<div class=crumb>");
    let ghost head = out@;
    let mut j: usize = 0;
    proof {
        assert(str_views(pre@).len() == pre@.len());
        assert(parts.take(0) =~= Seq::<Seq<char>>::empty());
        assert(out@ =~= head + concat(parts.take(0)));
    }
    while j < segs.len()
        invariant
            j <= segs@.len(),
            sv == views(segs@),
            sv == split_char(topic@, '/'),
            str_views(pre@) == crumb_prefixes_spec(topic@),
            pre@.len() == sv.len(),
            counts@.len() == sv.len(),
            parts == Seq::new(sv.len(), |j: int| crumb_part(sv[j], crumb_prefixes_spec(topic@)[j], counts@[j], j == 0)),
            out@ == head + concat(parts.take(j as int)),
        decreases segs@.len() - j,
    {
        let ghost before = out@;
        if j > 0 {
            push_str(&mut out, "<span class=sep>/</span>");
        }
        push_str(&mut out, "<a href=\"/topic/");
        push_str(&mut out, esc(pre[j].as_str()).as_str());
        push_str(&mut out, "\">");
        let seg = string_of(&segs[j]);
        push_str(&mut out, esc(seg.as_str()).as_str());
        push_str(&mut out, "</a><span class=tcount>");
        push_str(&mut out, i64_to_string(counts[j]).as_str());
        push_str(&mut out, "</span>");
        proof {
            reveal_strlit("");
            assert(str_views(pre@)[j as int] == pre@[j as int]@);
            assert(out@ =~= before + parts[j as int]);
            assert(parts.take(j + 1).drop_last() =~= parts.take(j as int));
        }
        j += 1;
    }
    proof {
        assert(parts.take(segs@.len() as int) =~= parts);
    }
    push_str(&mut out, "</div>");
    string_of(&out)
}

/// Render the topics panel of a document page.
pub fn topics_panel(topics: &Vec<String>, counts: &Vec<Vec<i64>>) -> (r: String)
    requires
        counts@.len() == topics@.len(),
        forall|i: int| 0 <= i < topics@.len() ==> #[trigger] counts@[i]@.len() == split_char(topics@[i]@, '/').len(),
    ensures
        r@ == topics_panel_spec(str_views(topics@), counts@.map_values(|c: Vec<i64>| c@)),
{
    if topics.len() == 0 {
        proof {
            reveal_strlit("");
        }
        return String::new();
    }
    let ghost ts = str_views(topics@);
    let ghost cv = counts@.map_values(|c: Vec<i64>| c@);
    let ghost rows = Seq::new(ts.len(), |i: int| crumb_row(ts[i], cv[i]));
    let mut out: Vec<char> = Vec::new();
    push_str(&mut out, "<div class=panel><h4>Topics</h4>");
    let ghost head = out@;
    let mut i: usize = 0;
    proof {
        assert(rows.take(0) =~= Seq::<Seq<char>>::empty());
        assert(out@ =~= head + concat(rows.take(0)));
    }
    while i < topics.len()
        invariant
            i <= topics@.len(),
            counts@.len() == topics@.len(),
            forall|k: int| 0 <= k < topics@.len() ==> #[trigger] counts@[k]@.len() == split_char(topics@[k]@, '/').len(),
            ts == str_views(topics@),
            cv == counts@.map_values(|c: Vec<i64>| c@),
            rows == Seq::new(ts.len(), |i: int| crumb_row(ts[i], cv[i])),
            out@ == head + concat(rows.take(i as int)),
        decreases topics@.len() - i,
    {
        let ghost before = out@;
        let row = crumb_row_exec(&topics[i], &counts[i]);
        push_str(&mut out, row.as_str());
        proof {
            assert(out@ =~= before + rows[i as int]);
            assert(rows.take(i + 1).drop_last() =~= rows.take(i as int));
        }
        i += 1;
    }
    proof {
        assert(rows.take(topics@.len() as int) =~= rows);
    }
    push_str(&mut out, "</div>");
    string_of(&out)
}

} // verus!
