//! Parsing Markdown knowledge-base files: the frontmatter block, heading-level
//! chunking, and `[[wikilink]]` extraction.
//!
//! A passage-level chunk is the text under a heading (the lead text before the
//! first heading becomes chunk 0). Chunks are what gets embedded and full-text
//! indexed, so an agent retrieves the relevant section, not a whole file.

use vstd::prelude::*;
use pulldown_cmark::{Parser, Tag};
use pulldown_cmark::TagEnd::{CodeBlock, Heading, Item, Paragraph, TableCell};
use pulldown_cmark::Event::{Code, End, HardBreak, SoftBreak, Start, Text};
use self::MdKind as K;
use sha2::{Digest, Sha256};
use vstd::string::StringSliceAdditionalSpecFns;
use crate::text::{
    chars_of, char_index_from, char_index_exec, lemma_char_index_from, slice_of, string_of,
    starts_with, starts_with_exec, trim, trim_bounds, trim_end_char, trim_end_char_bound,
    trim_start_char, trim_start_char_bound, push_str, push_all, seq_eq, join, join_exec, words,
    word_end, lemma_word_end, trim_start, is_space, is_space_char, str_views, byte_offset,
    lemma_byte_offset_step, utf8_len, utf8_of,
};

verus! {

// ---------------------------------------------------------------------------
// The frontmatter block
// ---------------------------------------------------------------------------

/// The length of the opening `---` fence line, if `raw` opens with one.
pub open spec fn opening_fence(raw: Seq<char>) -> Option<int> {
    if starts_with(raw, "---\n"@) {
        Some(4)
    } else if starts_with(raw, "---\r\n"@) {
        Some(5)
    } else {
        None
    }
}

/// The line of `rest` starting at `from` and ending before the newline at `k`,
/// as the fence test sees it.
pub open spec fn fence_line(rest: Seq<char>, from: int, k: int) -> Seq<char> {
    trim(trim_end_char(rest.subrange(from, k), '\r'))
}

/// Where the first newline-terminated line at or after `from` that reads `---`
/// (ignoring surrounding whitespace) starts.
pub open spec fn closing_fence(rest: Seq<char>, from: int) -> Option<int>
    decreases rest.len() - from,
{
    if from < 0 || from >= rest.len() {
        None
    } else {
        let k = char_index_from(rest, '\n', from);
        if k >= rest.len() {
            None
        } else if fence_line(rest, from, k) == "---"@ {
            Some(from)
        } else {
            proof {
                lemma_char_index_from(rest, '\n', from);
            }
            closing_fence(rest, k + 1)
        }
    }
}

/// The `(yaml, body)` of a file that opens with a `---` fence and closes the
/// block with another `---` line; `None` for plain Markdown.
pub open spec fn split_frontmatter_spec(raw: Seq<char>) -> Option<(Seq<char>, Seq<char>)> {
    match opening_fence(raw) {
        None => None,
        Some(n) => {
            let rest = raw.skip(n);
            match closing_fence(rest, 0) {
                None => None,
                Some(s) => {
                    let k = char_index_from(rest, '\n', s);
                    Some((rest.take(s), rest.skip(k + 1)))
                },
            }
        },
    }
}

/// Split a leading `---` YAML block from the body. `None` when the file does
/// not open with a frontmatter fence or the block is never closed.
pub fn split_frontmatter(raw: &str) -> (r: Option<(String, String)>)
    ensures
        match r {
            Some((y, b)) => split_frontmatter_spec(raw@) == Some((y@, b@)),
            None => split_frontmatter_spec(raw@) is None,
        },
{
    let cs = chars_of(raw);
    let f1 = chars_of("---\n");
    let f2 = chars_of("---\r\n");
    let n: usize = if starts_with_exec(&cs, &f1) {
        4
    } else if starts_with_exec(&cs, &f2) {
        5
    } else {
        return None;
    };
    proof {
        reveal_strlit("---\n");
        reveal_strlit("---\r\n");
    }
    let rest = slice_of(&cs, n, cs.len());
    assert(rest@ =~= raw@.skip(n as int));
    let fence = chars_of("---");
    let mut from: usize = 0;
    while from < rest.len()
        invariant
            from <= rest@.len(),
            rest@ == raw@.skip(n as int),
            opening_fence(raw@) == Some(n as int),
            fence@ == "---"@,
            closing_fence(rest@, 0) == closing_fence(rest@, from as int),
        decreases rest@.len() - from,
    {
        let k = char_index_exec(&rest, '\n', from);
        proof {
            lemma_char_index_from(rest@, '\n', from as int);
        }
        if k >= rest.len() {
            return None;
        }
        let e = trim_end_char_bound(&rest, from, k, '\r');
        let (a, b) = trim_bounds(&rest, from, e);
        let line = slice_of(&rest, a, b);
        if seq_eq(&line, &fence) {
            let yaml = slice_of(&rest, 0, from);
            let body = slice_of(&rest, k + 1, rest.len());
            proof {
                assert(yaml@ =~= rest@.take(from as int));
                assert(body@ =~= rest@.skip(k + 1));
            }
            return Some((string_of(&yaml), string_of(&body)));
        }
        from = k + 1;
    }
    None
}

/// The file text for a YAML block and a body: the inverse of the split. The
/// body's leading newlines are dropped and a missing final newline is added.
pub open spec fn render_doc_spec(yaml: Seq<char>, body: Seq<char>) -> Seq<char> {
    let b = trim_start_char(body, '\n');
    let sep: Seq<char> = if b.len() == 0 || b.last() == '\n' { Seq::empty() } else { seq!['\n'] };
    "---\n"@ + yaml + "---\n\n"@ + b + sep
}

/// Render a document file from its YAML block and body.
pub fn render_doc(yaml: &str, body: &str) -> (r: String)
    ensures
        r@ == render_doc_spec(yaml@, body@),
{
    let bc = chars_of(body);
    let s = trim_start_char_bound(&bc, 0, bc.len(), '\n');
    proof {
        assert(bc@.subrange(0, bc@.len() as int) =~= bc@);
    }
    let b = slice_of(&bc, s, bc.len());
    let mut out: Vec<char> = Vec::new();
    push_str(&mut out, "---\n");
    push_str(&mut out, yaml);
    push_str(&mut out, "---\n\n");
    push_all(&mut out, &b);
    if b.len() > 0 && b[b.len() - 1] != '\n' {
        out.push('\n');
    }
    proof {
        let sep: Seq<char> = if b@.len() == 0 || b@.last() == '\n' { Seq::empty() } else { seq!['\n'] };
        assert(out@ =~= "---\n"@ + yaml@ + "---\n\n"@ + b@ + sep);
    }
    string_of(&out)
}


// ---------------------------------------------------------------------------
// Rendering and splitting are inverse
// ---------------------------------------------------------------------------

/// A YAML block the fence search passes over: empty or newline-terminated,
/// with no line that reads `---`.
pub open spec fn is_yaml_block(yaml: Seq<char>) -> bool {
    &&& (yaml.len() == 0 || yaml.last() == '\n')
    &&& closing_fence(yaml, 0) is None
}

/// The body a rendered file splits back into.
pub open spec fn rendered_body(body: Seq<char>) -> Seq<char> {
    let b = trim_start_char(body, '\n');
    let sep: Seq<char> = if b.len() == 0 || b.last() == '\n' { Seq::empty() } else { seq!['\n'] };
    seq!['\n'] + b + sep
}

proof fn lemma_char_index_prefix(y: Seq<char>, t: Seq<char>, from: int)
    requires
        0 <= from < y.len(),
        y.last() == '\n',
    ensures
        char_index_from(y + t, '\n', from) == char_index_from(y, '\n', from),
        char_index_from(y, '\n', from) < y.len(),
{
    lemma_char_index_from(y + t, '\n', from);
    lemma_char_index_from(y, '\n', from);
    let a = char_index_from(y + t, '\n', from);
    let b = char_index_from(y, '\n', from);
    if b >= y.len() {
        assert(y[y.len() - 1] == '\n');
    }
    if a < b {
        assert((y + t)[a] == y[a]);
    } else if b < a {
        assert((y + t)[b] == y[b]);
    }
}

proof fn lemma_closing_fence_prefix(y: Seq<char>, t: Seq<char>, from: int)
    requires
        y.len() == 0 || y.last() == '\n',
        0 <= from <= y.len(),
        from < y.len() ==> closing_fence(y, from) is None,
        t.len() >= 4 && t.take(4) == "---\n"@,
    ensures
        closing_fence(y + t, from) == Some(y.len() as int),
    decreases y.len() - from,
{
    reveal_strlit("---\n");
    reveal_strlit("---");
    let s = y + t;
    if from == y.len() {
        lemma_char_index_from(s, '\n', from);
        assert(t.take(4)[3] == '\n' && t.take(4)[0] == '-' && t.take(4)[1] == '-' && t.take(4)[2] == '-');
        assert(s[from + 3] == t[3]);
        assert(s[from] == t[0] && s[from + 1] == t[1] && s[from + 2] == t[2]);
        assert(s[from + 3] == '\n');
        assert(s[from] == '-' && s[from + 1] == '-' && s[from + 2] == '-');
        let k = char_index_from(s, '\n', from);
        assert(k == from + 3);
        let line = s.subrange(from, k);
        assert(line =~= "---"@);
        assert(trim_end_char(line, '\r') == line) by {
            assert(line.last() == '-');
        }
        assert(trim(line) == line) by {
            assert(line[0] == '-');
            assert(line.last() == '-');
            crate::text::lemma_trim_fixed(line);
        }
    } else {
        lemma_char_index_prefix(y, t, from);
        lemma_char_index_from(y, '\n', from);
        let k = char_index_from(y, '\n', from);
        assert(s.subrange(from, k) =~= y.subrange(from, k));
        lemma_closing_fence_prefix(y, t, k + 1);
    }
}

proof fn lemma_split_rendered_text(yaml: Seq<char>, t: Seq<char>)
    requires
        is_yaml_block(yaml),
        t.len() >= 4 && t.take(4) == "---\n"@,
    ensures
        split_frontmatter_spec("---\n"@ + (yaml + t)) == Some((yaml, t.skip(4))),
{
    reveal_strlit("---\n");
    let yl: int = yaml.len() as int;
    let raw = "---\n"@ + (yaml + t);
    assert(raw.take(4) =~= "---\n"@);
    assert(opening_fence(raw) == Some(4int));
    let rest = raw.skip(4);
    assert(rest =~= yaml + t);
    lemma_closing_fence_prefix(yaml, t, 0);
    lemma_char_index_from(rest, '\n', yl);
    assert(t.take(4)[3] == '\n' && t.take(4)[0] == '-' && t.take(4)[1] == '-' && t.take(4)[2] == '-');
    assert(rest[yl + 3] == t[3]);
    assert(rest[yl] == t[0] && rest[yl + 1] == t[1] && rest[yl + 2] == t[2]);
    assert(char_index_from(rest, '\n', yl) == yl + 3);
    assert(rest.take(yl) =~= yaml);
    assert(rest.skip(yl + 4) =~= t.skip(4));
}

/// Splitting a rendered document gives back its YAML block, and the body it
/// gives back renders to the same file: files the authoring commands write
/// round-trip.
pub proof fn lemma_split_render(yaml: Seq<char>, body: Seq<char>)
    requires
        is_yaml_block(yaml),
    ensures
        split_frontmatter_spec(render_doc_spec(yaml, body)) == Some((yaml, rendered_body(body))),
        render_doc_spec(yaml, rendered_body(body)) == render_doc_spec(yaml, body),
{
    reveal_strlit("---\n");
    reveal_strlit("---\n\n");
    let b = trim_start_char(body, '\n');
    let sep: Seq<char> = if b.len() == 0 || b.last() == '\n' { Seq::empty() } else { seq!['\n'] };
    let t = "---\n\n"@ + b + sep;
    assert(render_doc_spec(yaml, body) =~= "---\n"@ + (yaml + t));
    assert(t.take(4) =~= "---\n"@);
    lemma_split_rendered_text(yaml, t);
    assert(t.skip(4) =~= rendered_body(body));
    // Re-rendering the split body.
    let rb = rendered_body(body);
    assert(trim_start_char(rb, '\n') == trim_start_char(b + sep, '\n')) by {
        assert(rb.drop_first() =~= b + sep);
    }
    lemma_trim_start_char_shape(body);
    if b.len() == 0 {
        assert(b + sep =~= Seq::<char>::empty());
    } else {
        assert((b + sep)[0] == b[0]);
        assert(trim_start_char(b + sep, '\n') == b + sep);
        assert((b + sep).last() == '\n');
        assert(b + sep + Seq::<char>::empty() =~= b + sep);
    }
}

proof fn lemma_trim_start_char_shape(s: Seq<char>)
    ensures
        trim_start_char(s, '\n').len() > 0 ==> trim_start_char(s, '\n')[0] != '\n',
    decreases s.len(),
{
    if s.len() > 0 && s[0] == '\n' {
        lemma_trim_start_char_shape(s.drop_first());
    }
}


// ---------------------------------------------------------------------------
// Whitespace
// ---------------------------------------------------------------------------

/// Runs of whitespace collapsed to single spaces, ends trimmed.
pub open spec fn collapse_ws_spec(s: Seq<char>) -> Seq<char> {
    join(words(s), " "@)
}

/// Collapse runs of whitespace to single spaces and trim the ends.
pub fn collapse_ws(s: &str) -> (r: String)
    ensures
        r@ == collapse_ws_spec(s@),
{
    let ws = words_exec(s);
    join_exec(&ws, " ")
}

/// The whitespace-separated words of `s`.
pub fn words_exec(s: &str) -> (r: Vec<String>)
    ensures
        str_views(r@) == words(s@),
{
    let cs = chars_of(s);
    let n = cs.len();
    let mut ws: Vec<String> = Vec::new();
    let mut pos: usize = 0;
    proof {
        assert(cs@.skip(0) =~= cs@);
        assert(str_views(ws@) + words(cs@) =~= words(cs@));
    }
    while pos < n
        invariant
            n == cs@.len(),
            pos <= n,
            words(cs@) == str_views(ws@) + words(cs@.skip(pos as int)),
        decreases n - pos,
    {
        let mut a = pos;
        while a < n && is_space_char(cs[a])
            invariant
                n == cs@.len(),
                pos <= a <= n,
                trim_start(cs@.skip(pos as int)) == trim_start(cs@.skip(a as int)),
            decreases n - a,
        {
            assert(cs@.skip(a as int).drop_first() =~= cs@.skip(a + 1));
            a += 1;
        }
        if a == n {
            proof {
                assert(cs@.skip(a as int) =~= Seq::<char>::empty());
                assert(words(cs@.skip(pos as int)) =~= Seq::<Seq<char>>::empty());
            }
            pos = n;
        } else {
            let mut b = a;
            while b < n && !is_space_char(cs[b])
                invariant
                    n == cs@.len(),
                    a <= b <= n,
                    forall|j: int| a <= j < b ==> !is_space(cs@[j]),
                decreases n - b,
            {
                b += 1;
            }
            let word = slice_of(&cs, a, b);
            proof {
                let t = cs@.skip(a as int);
                assert(trim_start(t) == t) by {
                    assert(t[0] == cs@[a as int]);
                }
                lemma_word_end(t, 0);
                let k = word_end(t, 0);
                if k < b - a {
                    assert(t[k] == cs@[a + k]);
                }
                if k > b - a {
                    assert(t[b - a] == cs@[b as int]);
                }
                assert(k == b - a);
                assert(t.take(k) =~= word@);
                assert(t.skip(k) =~= cs@.skip(b as int));
                assert(words(cs@.skip(pos as int)) == seq![word@] + words(cs@.skip(b as int)));
            }
            let w = string_of(&word);
            let ghost old_ws = str_views(ws@);
            ws.push(w);
            proof {
                assert(str_views(ws@) =~= old_ws.push(word@));
                assert(old_ws + (seq![word@] + words(cs@.skip(b as int))) =~= str_views(ws@) + words(cs@.skip(b as int)));
            }
            pos = b;
        }
    }
    proof {
        assert(cs@.skip(pos as int) =~= Seq::<char>::empty());
        assert(words(cs@.skip(pos as int)) =~= Seq::<Seq<char>>::empty());
        assert(str_views(ws@) + Seq::<Seq<char>>::empty() =~= str_views(ws@));
    }
    ws
}


// ---------------------------------------------------------------------------
// Markdown events
// ---------------------------------------------------------------------------

/// Markdown events: one kind per event the chunker and the link scanners
/// match on, and `Other` for every other event.
#[derive(Clone, Copy, PartialEq, Eq, Structural)]
pub enum MdKind {
    /// Start of a heading.
    HeadingStart,
    /// End of a heading.
    HeadingEnd,
    /// A text node.
    Text,
    /// An inline code span.
    Code,
    /// A soft line break.
    SoftBreak,
    /// A hard line break.
    HardBreak,
    /// End of a paragraph.
    ParagraphEnd,
    /// End of a list item.
    ItemEnd,
    /// End of a table cell.
    TableCellEnd,
    /// Start of a code block.
    CodeBlockStart,
    /// End of a code block.
    CodeBlockEnd,
    /// Anything else.
    Other,
}

/// One Markdown event: its kind, the text it carries (text and code nodes),
/// and the byte range of the source it came from.
pub struct MdEvent {
    pub kind: MdKind,
    pub text: String,
    pub start: usize,
    pub end: usize,
}

impl View for MdEvent {
    type V = (MdKind, Seq<char>, usize, usize);

    open spec fn view(&self) -> (MdKind, Seq<char>, usize, usize) {
        (self.kind, self.text@, self.start, self.end)
    }
}

/// The views of a list of events.
pub open spec fn event_views(v: Seq<MdEvent>) -> Seq<(MdKind, Seq<char>, usize, usize)> {
    v.map_values(|e: MdEvent| e@)
}

/// The events pulldown-cmark's default parser yields for a Markdown text, each
/// as its kind (`Other` for the kinds not told apart), its text (text and code
/// nodes) and its byte range.
pub uninterp spec fn markdown_events_of(body: Seq<char>) -> Seq<(MdKind, Seq<char>, usize, usize)>;

/// The events of `body`, as `pulldown_cmark::Parser::new(body).into_offset_iter()`
/// yields them, each reduced to its kind, text and byte range.
#[verifier::external_body]
pub(crate) fn markdown_events(body: &str) -> (r: Vec<MdEvent>)
    ensures
        event_views(r@) == markdown_events_of(body@),
{
    Parser::new(body).into_offset_iter().map(|(e, r)| {
        let text = match &e { Text(t) | Code(t) => t.to_string(), _ => String::new() };
        let kind = match e {
            Start(Tag::Heading { .. }) => K::HeadingStart, End(Heading(_)) => K::HeadingEnd,
            Text(_) => K::Text, Code(_) => K::Code, SoftBreak => K::SoftBreak, HardBreak => K::HardBreak,
            End(Paragraph) => K::ParagraphEnd, End(Item) => K::ItemEnd,
            End(TableCell) => K::TableCellEnd, Start(Tag::CodeBlock(_)) => K::CodeBlockStart,
            End(CodeBlock) => K::CodeBlockEnd, _ => K::Other,
        };
        MdEvent { kind, text, start: r.start, end: r.end }
    }).collect()
}

// ---------------------------------------------------------------------------
// Chunking
// ---------------------------------------------------------------------------

/// A passage: the text under one heading (`None` for the lead text).
pub struct Chunk {
    pub heading: Option<String>,
    pub ord: usize,
    pub text: String,
}

impl View for Chunk {
    type V = (Option<Seq<char>>, usize, Seq<char>);

    open spec fn view(&self) -> (Option<Seq<char>>, usize, Seq<char>) {
        (
            match self.heading {
                Some(h) => Some(h@),
                None => None,
            },
            self.ord,
            self.text@,
        )
    }
}

/// The views of a list of chunks.
pub open spec fn chunk_views(v: Seq<Chunk>) -> Seq<(Option<Seq<char>>, usize, Seq<char>)> {
    v.map_values(|c: Chunk| c@)
}

/// The chunker's state: chunks so far, the current heading, the current text,
/// whether inside a heading, and the heading text so far.
pub type ChunkState = (
    Seq<(Option<Seq<char>>, usize, Seq<char>)>,
    Option<Seq<char>>,
    Seq<char>,
    bool,
    Seq<char>,
);

/// Close the current section: it becomes a chunk when it has text or a heading.
pub open spec fn flush_chunk(st: ChunkState) -> ChunkState {
    let normalized = collapse_ws_spec(st.2);
    let chunks = if normalized.len() > 0 || st.1 is Some {
        st.0.push((st.1, st.0.len() as usize, normalized))
    } else {
        st.0
    };
    (chunks, st.1, Seq::empty(), st.3, st.4)
}

/// One event's effect on the chunker.
pub open spec fn chunk_step(st: ChunkState, e: (MdKind, Seq<char>, usize, usize)) -> ChunkState {
    match e.0 {
        MdKind::HeadingStart => {
            let f = flush_chunk(st);
            (f.0, f.1, f.2, true, Seq::empty())
        },
        MdKind::HeadingEnd => (st.0, Some(trim(st.4)), st.2, false, st.4),
        MdKind::Text | MdKind::Code => if st.3 {
            (st.0, st.1, st.2, st.3, st.4 + e.1)
        } else {
            (st.0, st.1, st.2 + e.1, st.3, st.4)
        },
        MdKind::SoftBreak | MdKind::HardBreak | MdKind::ParagraphEnd | MdKind::ItemEnd
        | MdKind::TableCellEnd | MdKind::CodeBlockEnd => if st.3 {
            st
        } else {
            (st.0, st.1, st.2.push(' '), st.3, st.4)
        },
        _ => st,
    }
}

/// The chunker's state after a run of events.
pub open spec fn chunk_fold(evs: Seq<(MdKind, Seq<char>, usize, usize)>) -> ChunkState
    decreases evs.len(),
{
    if evs.len() == 0 {
        (Seq::empty(), None, Seq::empty(), false, Seq::empty())
    } else {
        chunk_step(chunk_fold(evs.drop_last()), evs.last())
    }
}

/// Folding one more event is one more step.
proof fn lemma_chunk_fold_push(evs: Seq<(MdKind, Seq<char>, usize, usize)>, e: (MdKind, Seq<char>, usize, usize))
    ensures
        chunk_fold(evs.push(e)) == chunk_step(chunk_fold(evs), e),
{
    assert(evs.push(e).drop_last() =~= evs);
}

/// Outside a heading, the end of a paragraph, list item, table cell or code
/// block, and a line break, each add one space to the section's text and
/// change nothing else: they separate the words on either side.
pub proof fn lemma_separators_split_words(evs: Seq<(MdKind, Seq<char>, usize, usize)>, e: (MdKind, Seq<char>, usize, usize))
    requires
        e.0 == MdKind::SoftBreak || e.0 == MdKind::HardBreak || e.0 == MdKind::ParagraphEnd
            || e.0 == MdKind::ItemEnd || e.0 == MdKind::TableCellEnd || e.0 == MdKind::CodeBlockEnd,
        !chunk_fold(evs).3,
    ensures
        ({
            let st = chunk_fold(evs);
            chunk_fold(evs.push(e)) == (st.0, st.1, st.2.push(' '), st.3, st.4)
        }),
{
    lemma_chunk_fold_push(evs, e);
}

/// Outside a heading, a text or code event appends its text to the section.
pub proof fn lemma_text_appends(evs: Seq<(MdKind, Seq<char>, usize, usize)>, e: (MdKind, Seq<char>, usize, usize))
    requires
        e.0 == MdKind::Text || e.0 == MdKind::Code,
        !chunk_fold(evs).3,
    ensures
        ({
            let st = chunk_fold(evs);
            chunk_fold(evs.push(e)) == (st.0, st.1, st.2 + e.1, st.3, st.4)
        }),
{
    lemma_chunk_fold_push(evs, e);
}

/// Two list items `x` and `y` in a section (outside a heading) read as `x`, a
/// space, then `y`; when the section has a heading and the stream ends there,
/// its chunk is that text with whitespace collapsed.
pub proof fn lemma_list_items_spaced(
    evs: Seq<(MdKind, Seq<char>, usize, usize)>,
    x: (MdKind, Seq<char>, usize, usize),
    end: (MdKind, Seq<char>, usize, usize),
    y: (MdKind, Seq<char>, usize, usize),
)
    requires
        x.0 == MdKind::Text,
        end.0 == MdKind::ItemEnd,
        y.0 == MdKind::Text,
        !chunk_fold(evs).3,
    ensures
        ({
            let st = chunk_fold(evs);
            let evs2 = evs.push(x).push(end).push(y);
            let text = st.2 + x.1 + seq![' '] + y.1;
            &&& chunk_fold(evs2) == (st.0, st.1, text, false, st.4)
            &&& st.1 is Some ==> chunks_of(evs2) == st.0.push((st.1, st.0.len() as usize, collapse_ws_spec(text)))
        }),
{
    let st = chunk_fold(evs);
    lemma_text_appends(evs, x);
    lemma_separators_split_words(evs.push(x), end);
    lemma_text_appends(evs.push(x).push(end), y);
    assert(st.2 + x.1 + seq![' '] + y.1 =~= (st.2 + x.1).push(' ') + y.1);
}

/// The passages of an event stream, one per heading section.
pub open spec fn chunks_of(evs: Seq<(MdKind, Seq<char>, usize, usize)>) -> Seq<(Option<Seq<char>>, usize, Seq<char>)> {
    flush_chunk(chunk_fold(evs)).0
}

/// The view of an optional string.
pub open spec fn opt_view(s: Option<String>) -> Option<Seq<char>> {
    match s {
        Some(x) => Some(x@),
        None => None,
    }
}

fn flush_exec(chunks: &mut Vec<Chunk>, heading: &Option<String>, text: &mut Vec<char>)
    ensures
        ({
            let f = flush_chunk((chunk_views(old(chunks)@), opt_view(*heading), old(text)@, false, Seq::empty()));
            &&& chunk_views(final(chunks)@) == f.0
            &&& final(text)@ == f.2
        }),
{
    let s = string_of(text);
    let normalized = collapse_ws(s.as_str());
    if !normalized.as_str().is_empty() || heading.is_some() {
        let ord = chunks.len();
        let h = match heading {
            Some(x) => Some(x.clone()),
            None => None,
        };
        let ghost before = chunk_views(chunks@);
        chunks.push(Chunk { heading: h, ord, text: normalized });
        proof {
            assert(chunk_views(chunks@) =~= before.push((opt_view(*heading), ord, normalized@)));
        }
    }
    *text = Vec::new();
}

/// Chunk an event stream into passages, one per heading section.
pub fn chunk_events(events: &Vec<MdEvent>) -> (r: Vec<Chunk>)
    ensures
        chunk_views(r@) == chunks_of(event_views(events@)),
{
    let mut chunks: Vec<Chunk> = Vec::new();
    let mut cur_heading: Option<String> = None;
    let mut cur_text: Vec<char> = Vec::new();
    let mut in_heading = false;
    let mut heading_buf: Vec<char> = Vec::new();
    let ghost evs = event_views(events@);
    let mut i: usize = 0;
    proof {
        assert(evs.take(0) =~= Seq::<(MdKind, Seq<char>, usize, usize)>::empty());
        assert(chunk_views(chunks@) =~= Seq::<(Option<Seq<char>>, usize, Seq<char>)>::empty());
    }
    while i < events.len()
        invariant
            i <= events@.len(),
            evs == event_views(events@),
            (chunk_views(chunks@), opt_view(cur_heading), cur_text@, in_heading, heading_buf@)
                == chunk_fold(evs.take(i as int)),
        decreases events@.len() - i,
    {
        let ghost st = chunk_fold(evs.take(i as int));
        proof {
            assert(evs.take(i + 1).drop_last() =~= evs.take(i as int));
            assert(evs.take(i + 1).last() == events@[i as int]@);
        }
        let e = &events[i];
        match e.kind {
            MdKind::HeadingStart => {
                flush_exec(&mut chunks, &cur_heading, &mut cur_text);
                in_heading = true;
                heading_buf = Vec::new();
                proof {
                    assert(heading_buf@ =~= Seq::<char>::empty());
                }
            },
            MdKind::HeadingEnd => {
                in_heading = false;
                let (a, b) = trim_bounds(&heading_buf, 0, heading_buf.len());
                proof {
                    assert(heading_buf@.subrange(0, heading_buf@.len() as int) =~= heading_buf@);
                }
                let h = slice_of(&heading_buf, a, b);
                cur_heading = Some(string_of(&h));
            },
            MdKind::Text | MdKind::Code => {
                let t = chars_of(e.text.as_str());
                if in_heading {
                    push_all(&mut heading_buf, &t);
                } else {
                    push_all(&mut cur_text, &t);
                }
            },
            MdKind::SoftBreak | MdKind::HardBreak | MdKind::ParagraphEnd | MdKind::ItemEnd
            | MdKind::TableCellEnd | MdKind::CodeBlockEnd => {
                if !in_heading {
                    cur_text.push(' ');
                }
            },
            _ => {},
        }
        i += 1;
    }
    proof {
        assert(evs.take(i as int) =~= evs);
    }
    flush_exec(&mut chunks, &cur_heading, &mut cur_text);
    chunks
}

/// Chunk a Markdown body into passages, one per heading section.
pub fn chunk_by_heading(body: &str) -> (r: Vec<Chunk>)
    ensures
        chunk_views(r@) == chunks_of(markdown_events_of(body@)),
{
    let events = markdown_events(body);
    chunk_events(&events)
}


// ---------------------------------------------------------------------------
// Wikilinks
// ---------------------------------------------------------------------------

/// One `[[...]]` match: its byte range in the searched text and the text
/// between the brackets.
pub struct WikiMatch {
    pub start: usize,
    pub end: usize,
    pub inner: String,
}

impl View for WikiMatch {
    type V = (usize, usize, Seq<char>);

    open spec fn view(&self) -> (usize, usize, Seq<char>) {
        (self.start, self.end, self.inner@)
    }
}

/// The views of a list of matches.
pub open spec fn match_views(v: Seq<WikiMatch>) -> Seq<(usize, usize, Seq<char>)> {
    v.map_values(|m: WikiMatch| m@)
}

/// Where a `[[x]]` link that starts at character `i` ends: `x` runs from
/// `i + 2` to the first `]`, must be non-empty, and that `]` must be followed
/// by another.
pub open spec fn wikilink_at(s: Seq<char>, i: int) -> Option<int> {
    if 0 <= i && i + 1 < s.len() && s[i] == '[' && s[i + 1] == '[' {
        let j = char_index_from(s, ']', i + 2);
        if j > i + 2 && j + 1 < s.len() && s[j + 1] == ']' {
            Some(j + 2)
        } else {
            None
        }
    } else {
        None
    }
}

/// The `[[x]]` links from character `i` on, leftmost first and not
/// overlapping, each as its byte range and `x`.
pub open spec fn wikilinks_from(s: Seq<char>, i: int) -> Seq<(usize, usize, Seq<char>)>
    decreases s.len() - i,
{
    if i < 0 || i >= s.len() {
        Seq::empty()
    } else {
        match wikilink_at(s, i) {
            Some(e) => {
                proof {
                    lemma_char_index_from(s, ']', i + 2);
                }
                seq![(byte_offset(s, i) as usize, byte_offset(s, e) as usize, s.subrange(i + 2, e - 2))]
                    + wikilinks_from(s, e)
            },
            None => wikilinks_from(s, i + 1),
        }
    }
}

/// The `[[x]]` links of a text: the successive non-overlapping matches of
/// `\[\[([^\]]+)\]\]`, each with its byte range and `x`.
pub open spec fn wikilink_matches_of(text: Seq<char>) -> Seq<(usize, usize, Seq<char>)> {
    wikilinks_from(text, 0)
}

proof fn lemma_wikilink_at(s: Seq<char>, i: int)
    ensures
        wikilink_at(s, i) matches Some(e) ==> i + 5 <= e <= s.len(),
{
    if 0 <= i && i + 1 < s.len() {
        lemma_char_index_from(s, ']', i + 2);
    }
}

/// Byte offsets never decrease and stay within the encoding.
proof fn lemma_byte_offset_mono(s: Seq<char>, a: int, b: int)
    requires
        0 <= a <= b <= s.len(),
    ensures
        byte_offset(s, a) <= byte_offset(s, b) <= utf8_of(s).len(),
    decreases b - a,
{
    if a < b {
        lemma_byte_offset_step(s, b - 1);
        lemma_byte_offset_mono(s, a, b - 1);
    } else {
        assert(s =~= s.take(b) + s.skip(b));
        crate::text::lemma_utf8_concat(s.take(b), s.skip(b));
    }
}

/// Links found from `i` lie within the text, in order, without overlapping.
proof fn lemma_wikilinks_ordered(s: Seq<char>, i: int)
    requires
        0 <= i,
        utf8_of(s).len() <= usize::MAX,
    ensures
        forall|k: int| 0 <= k < wikilinks_from(s, i).len() ==> byte_offset(s, i) <= (#[trigger] wikilinks_from(s, i)[k]).0
            <= wikilinks_from(s, i)[k].1 <= utf8_of(s).len(),
        forall|k: int| 0 <= k < wikilinks_from(s, i).len() - 1
            ==> (#[trigger] wikilinks_from(s, i)[k]).1 <= wikilinks_from(s, i)[k + 1].0,
    decreases s.len() - i,
{
    if i < s.len() {
        lemma_wikilink_at(s, i);
        match wikilink_at(s, i) {
            Some(e) => {
                lemma_wikilinks_ordered(s, e);
                lemma_byte_offset_mono(s, i, e);
                lemma_byte_offset_mono(s, e, s.len() as int);
                let rest = wikilinks_from(s, e);
                let w = wikilinks_from(s, i);
                let h = (byte_offset(s, i) as usize, byte_offset(s, e) as usize, s.subrange(i + 2, e - 2));
                assert(w == seq![h] + rest);
                assert forall|k: int| 0 <= k < w.len() implies byte_offset(s, i) <= (#[trigger] w[k]).0
                    <= w[k].1 <= utf8_of(s).len() by {
                    if k > 0 {
                        assert(w[k] == rest[k - 1]);
                    }
                }
                assert forall|k: int| 0 <= k < w.len() - 1 implies (#[trigger] w[k]).1 <= w[k + 1].0 by {
                    assert(w[k + 1] == rest[k]);
                    if k > 0 {
                        assert(w[k] == rest[k - 1]);
                    }
                }
            },
            None => {
                lemma_wikilinks_ordered(s, i + 1);
                lemma_byte_offset_mono(s, i, i + 1);
                let w = wikilinks_from(s, i);
                assert(w == wikilinks_from(s, i + 1));
                assert forall|k: int| 0 <= k < w.len() implies byte_offset(s, i) <= (#[trigger] w[k]).0
                    <= w[k].1 <= utf8_of(s).len() by {
                    assert(w[k] == wikilinks_from(s, i + 1)[k]);
                }
                assert forall|k: int| 0 <= k < w.len() - 1 implies (#[trigger] w[k]).1 <= w[k + 1].0 by {
                    assert(w[k] == wikilinks_from(s, i + 1)[k]);
                }
            },
        }
    } else {
        assert(wikilinks_from(s, i) =~= Seq::<(usize, usize, Seq<char>)>::empty());
    }
}

/// Every link found holds a non-empty `x` without `]`.
pub proof fn lemma_wikilink_inner(s: Seq<char>, i: int)
    requires
        0 <= i,
    ensures
        forall|k: int| 0 <= k < wikilinks_from(s, i).len() ==> {
            let x = (#[trigger] wikilinks_from(s, i)[k]).2;
            x.len() > 0 && !x.contains(']')
        },
    decreases s.len() - i,
{
    if i < s.len() {
        lemma_wikilink_at(s, i);
        match wikilink_at(s, i) {
            Some(e) => {
                lemma_wikilink_inner(s, e);
                lemma_char_index_from(s, ']', i + 2);
                let w = wikilinks_from(s, i);
                let rest = wikilinks_from(s, e);
                let x0 = s.subrange(i + 2, e - 2);
                assert(w == seq![(byte_offset(s, i) as usize, byte_offset(s, e) as usize, x0)] + rest);
                assert(!x0.contains(']')) by {
                    if x0.contains(']') {
                        let q = choose|q: int| 0 <= q < x0.len() && x0[q] == ']';
                        assert(s[i + 2 + q] == ']');
                    }
                }
                assert forall|k: int| 0 <= k < w.len() implies {
                    let x = (#[trigger] w[k]).2;
                    x.len() > 0 && !x.contains(']')
                } by {
                    if k > 0 {
                        assert(w[k] == rest[k - 1]);
                    }
                }
            },
            None => {
                lemma_wikilink_inner(s, i + 1);
                assert(wikilinks_from(s, i) == wikilinks_from(s, i + 1));
            },
        }
    } else {
        assert(wikilinks_from(s, i) =~= Seq::<(usize, usize, Seq<char>)>::empty());
    }
}

/// The `[[x]]` links of `text`, leftmost first and not overlapping, each with
/// its byte range and `x`.
pub fn wikilink_matches(text: &str) -> (r: Vec<WikiMatch>)
    ensures
        match_views(r@) == wikilink_matches_of(text@),
        forall|i: int| 0 <= i < r@.len() ==> (#[trigger] r@[i]).start <= r@[i].end <= text.spec_bytes().len(),
        forall|i: int| 0 <= i < r@.len() - 1 ==> (#[trigger] r@[i]).end <= r@[i + 1].start,
{
    let cs = chars_of(text);
    let n = cs.len();
    let bytes = text.as_bytes();
    let ghost s = cs@;
    let blen = bytes.len();
    proof {
        assert(utf8_of(s) == text.spec_bytes());
        assert(blen == bytes@.len());
    }
    // Byte offset of every character position.
    let mut offs: Vec<usize> = Vec::new();
    let mut acc: usize = 0;
    let mut k: usize = 0;
    proof {
        assert(s.take(0) =~= Seq::<char>::empty());
        assert(utf8_of(s.take(0)) =~= Seq::<u8>::empty());
    }
    while k < n
        invariant
            n == s.len(),
            s == cs@,
            k <= n,
            offs@.len() == k,
            acc == byte_offset(s, k as int),
            blen == utf8_of(s).len(),
            forall|m: int| 0 <= m < k ==> #[trigger] offs@[m] == byte_offset(s, m),
        decreases n - k,
    {
        offs.push(acc);
        proof {
            lemma_byte_offset_step(s, k as int);
        }
        let w = utf8_len(cs[k]);
        acc = acc + w;
        k += 1;
    }
    offs.push(acc);
    let mut out: Vec<WikiMatch> = Vec::new();
    let mut i: usize = 0;
    proof {
        assert(match_views(out@) + wikilinks_from(s, 0) =~= wikilinks_from(s, 0));
    }
    while i < n
        invariant
            n == s.len(),
            s == cs@,
            i <= n,
            offs@.len() == n + 1,
            forall|m: int| 0 <= m <= n ==> #[trigger] offs@[m] == byte_offset(s, m),
            match_views(out@) + wikilinks_from(s, i as int) == wikilinks_from(s, 0),
            blen == utf8_of(s).len(),
        decreases n - i,
    {
        proof {
            lemma_wikilink_at(s, i as int);
        }
        let mut found: Option<usize> = None;
        if i + 1 < n && cs[i] == '[' && cs[i + 1] == '[' {
            let j = char_index_exec(&cs, ']', i + 2);
            if j > i + 2 && j < n && j + 1 < n && cs[j + 1] == ']' {
                found = Some(j + 2);
            }
        }
        assert(found == match wikilink_at(s, i as int) { Some(e) => Some(e as usize), None => None::<usize> });
        match found {
            Some(e) => {
                let inner = slice_of(&cs, i + 2, e - 2);
                let m = WikiMatch { start: offs[i], end: offs[e], inner: string_of(&inner) };
                let ghost before = match_views(out@);
                out.push(m);
                proof {
                    assert(match_views(out@) =~= before.push((byte_offset(s, i as int) as usize,
                        byte_offset(s, e as int) as usize, s.subrange(i + 2, e - 2))));
                    assert(wikilinks_from(s, i as int) == seq![(byte_offset(s, i as int) as usize,
                        byte_offset(s, e as int) as usize, s.subrange(i + 2, e - 2))] + wikilinks_from(s, e as int));
                    assert(match_views(out@) + wikilinks_from(s, e as int)
                        =~= before + wikilinks_from(s, i as int));
                }
                i = e;
            },
            None => {
                i += 1;
            },
        }
    }
    proof {
        assert(wikilinks_from(s, i as int) =~= Seq::<(usize, usize, Seq<char>)>::empty());
        assert(match_views(out@) =~= wikilinks_from(s, 0));
        lemma_wikilinks_ordered(s, 0);
        assert forall|m: int| 0 <= m < out@.len() implies (#[trigger] out@[m]).start <= out@[m].end
            <= text.spec_bytes().len() by {
            assert(match_views(out@)[m] == out@[m]@);
        }
        assert forall|m: int| 0 <= m < out@.len() - 1 implies (#[trigger] out@[m]).end <= out@[m + 1].start by {
            assert(match_views(out@)[m] == out@[m]@);
            assert(match_views(out@)[m + 1] == out@[m + 1]@);
        }
    }
    out
}

/// The prose of an event stream: text outside code blocks, with line breaks
/// as spaces (inline code spans are left out).
pub open spec fn prose_fold(evs: Seq<(MdKind, Seq<char>, usize, usize)>) -> (Seq<char>, bool)
    decreases evs.len(),
{
    if evs.len() == 0 {
        (Seq::empty(), false)
    } else {
        let (p, in_code) = prose_fold(evs.drop_last());
        let e = evs.last();
        match e.0 {
            MdKind::CodeBlockStart => (p, true),
            MdKind::CodeBlockEnd => (p, false),
            MdKind::Text => if in_code { (p, in_code) } else { (p + e.1, in_code) },
            MdKind::SoftBreak | MdKind::HardBreak => if in_code { (p, in_code) } else { (p.push(' '), in_code) },
            _ => (p, in_code),
        }
    }
}

/// The prose text of an event stream.
pub fn prose_of(events: &Vec<MdEvent>) -> (r: String)
    ensures
        r@ == prose_fold(event_views(events@)).0,
{
    let ghost evs = event_views(events@);
    let mut prose: Vec<char> = Vec::new();
    let mut in_code = false;
    let mut i: usize = 0;
    proof {
        assert(evs.take(0) =~= Seq::<(MdKind, Seq<char>, usize, usize)>::empty());
    }
    while i < events.len()
        invariant
            i <= events@.len(),
            evs == event_views(events@),
            (prose@, in_code) == prose_fold(evs.take(i as int)),
        decreases events@.len() - i,
    {
        proof {
            assert(evs.take(i + 1).drop_last() =~= evs.take(i as int));
            assert(evs.take(i + 1).last() == events@[i as int]@);
        }
        let e = &events[i];
        match e.kind {
            MdKind::CodeBlockStart => {
                in_code = true;
            },
            MdKind::CodeBlockEnd => {
                in_code = false;
            },
            MdKind::Text => {
                if !in_code {
                    push_str(&mut prose, e.text.as_str());
                }
            },
            MdKind::SoftBreak | MdKind::HardBreak => {
                if !in_code {
                    prose.push(' ');
                }
            },
            _ => {},
        }
        i += 1;
    }
    proof {
        assert(evs.take(i as int) =~= evs);
    }
    string_of(&prose)
}

/// The link target in a `[[target|alias]]` body: the text before any `|`,
/// trimmed.
pub open spec fn link_target(inner: Seq<char>) -> Seq<char> {
    trim(inner.take(char_index_from(inner, '|', 0)))
}

/// The distinct non-empty targets of a run of matches, in first-seen order.
pub open spec fn distinct_targets(ms: Seq<(usize, usize, Seq<char>)>) -> Seq<Seq<char>>
    decreases ms.len(),
{
    if ms.len() == 0 {
        Seq::empty()
    } else {
        let seen = distinct_targets(ms.drop_last());
        let t = link_target(ms.last().2);
        if t.len() > 0 && !seen.contains(t) {
            seen.push(t)
        } else {
            seen
        }
    }
}

/// The target of one `[[...]]` body.
pub fn link_target_exec(inner: &str) -> (r: String)
    ensures
        r@ == link_target(inner@),
{
    let cs = chars_of(inner);
    let k = char_index_exec(&cs, '|', 0);
    proof {
        lemma_char_index_from(cs@, '|', 0);
    }
    let (a, b) = trim_bounds(&cs, 0, k);
    proof {
        assert(cs@.take(k as int) =~= cs@.subrange(0, k as int));
    }
    let v = slice_of(&cs, a, b);
    string_of(&v)
}

/// The distinct targets of a list of `[[...]]` matches, in first-seen order.
pub fn targets_of(ms: &Vec<WikiMatch>) -> (r: Vec<String>)
    ensures
        str_views(r@) == distinct_targets(match_views(ms@)),
{
    let ghost mv = match_views(ms@);
    let mut seen: Vec<String> = Vec::new();
    let mut i: usize = 0;
    proof {
        assert(mv.take(0) =~= Seq::<(usize, usize, Seq<char>)>::empty());
        assert(str_views(seen@) =~= Seq::<Seq<char>>::empty());
    }
    while i < ms.len()
        invariant
            i <= ms@.len(),
            mv == match_views(ms@),
            str_views(seen@) == distinct_targets(mv.take(i as int)),
        decreases ms@.len() - i,
    {
        proof {
            assert(mv.take(i + 1).drop_last() =~= mv.take(i as int));
            assert(mv.take(i + 1).last() == ms@[i as int]@);
        }
        let t = link_target_exec(ms[i].inner.as_str());
        if !t.as_str().is_empty() && !contains_str(&seen, &t) {
            let ghost before = str_views(seen@);
            seen.push(t);
            proof {
                assert(str_views(seen@) =~= before.push(link_target(ms@[i as int].inner@)));
            }
        }
        i += 1;
    }
    proof {
        assert(mv.take(i as int) =~= mv);
    }
    seen
}

/// Whether `v` holds a string equal to `x`.
pub fn contains_str(v: &Vec<String>, x: &String) -> (b: bool)
    ensures
        b == str_views(v@).contains(x@),
{
    let mut i: usize = 0;
    while i < v.len()
        invariant
            i <= v@.len(),
            forall|j: int| 0 <= j < i ==> v@[j]@ != x@,
        decreases v@.len() - i,
    {
        if v[i] == *x {
            assert(str_views(v@)[i as int] == x@);
            return true;
        }
        i += 1;
    }
    proof {
        if str_views(v@).contains(x@) {
            let j = choose|j: int| 0 <= j < str_views(v@).len() && str_views(v@)[j] == x@;
            assert(v@[j]@ == x@);
        }
    }
    false
}

/// The distinct `[[wikilink]]` targets of a prose event stream, aliases
/// stripped. Only prose counts: links in code spans and blocks are literal.
pub fn wikilinks_of_events(events: &Vec<MdEvent>) -> (r: Vec<String>)
    ensures
        str_views(r@) == distinct_targets(wikilink_matches_of(prose_fold(event_views(events@)).0)),
{
    let prose = prose_of(events);
    let ms = wikilink_matches(prose.as_str());
    targets_of(&ms)
}

/// The distinct `[[wikilink]]` targets of a Markdown body, aliases stripped.
pub fn extract_wikilinks(body: &str) -> (r: Vec<String>)
    ensures
        str_views(r@) == distinct_targets(wikilink_matches_of(prose_fold(markdown_events_of(body@)).0)),
{
    let events = markdown_events(body);
    wikilinks_of_events(&events)
}


// ---------------------------------------------------------------------------
// Content hashing
// ---------------------------------------------------------------------------

/// The SHA-256 digest of a byte string.
pub uninterp spec fn sha256_of(data: Seq<u8>) -> Seq<u8>;

/// `Sha256::digest` from the `sha2` crate; a SHA-256 digest is 32 bytes.
#[verifier::external_body]
pub(crate) fn sha256(data: &[u8]) -> (r: Vec<u8>)
    ensures
        r@ == sha256_of(data@),
        r@.len() == 32,
{
    Sha256::digest(data).to_vec()
}

/// The lowercase hex digit for a value below 16.
pub open spec fn hex_digit(n: u8) -> char {
    if n < 10 {
        ((48 + n) as u8) as char
    } else {
        ((87 + n) as u8) as char
    }
}

/// Two lowercase hex digits per byte (what `{:02x}` prints for each).
pub open spec fn hex_spec(bytes: Seq<u8>) -> Seq<char>
    decreases bytes.len(),
{
    if bytes.len() == 0 {
        Seq::empty()
    } else {
        hex_spec(bytes.drop_last()) + seq![hex_digit(bytes.last() / 16), hex_digit(bytes.last() % 16)]
    }
}

fn hex_digit_exec(n: u8) -> (c: char)
    requires
        n < 16,
    ensures
        c == hex_digit(n),
{
    if n < 10 {
        let b: u8 = 48 + n;
        b as char
    } else {
        let b: u8 = 87 + n;
        b as char
    }
}

/// Lowercase hex of a byte string.
pub fn hex(bytes: &[u8]) -> (r: String)
    ensures
        r@ == hex_spec(bytes@),
{
    let mut out: Vec<char> = Vec::new();
    let mut i: usize = 0;
    proof {
        assert(bytes@.take(0) =~= Seq::<u8>::empty());
    }
    while i < bytes.len()
        invariant
            i <= bytes@.len(),
            out@ == hex_spec(bytes@.take(i as int)),
        decreases bytes@.len() - i,
    {
        let b = bytes[i];
        out.push(hex_digit_exec(b / 16));
        out.push(hex_digit_exec(b % 16));
        proof {
            let t = bytes@.take(i + 1);
            assert(t.drop_last() =~= bytes@.take(i as int));
            assert(t.last() == b);
            assert(out@ =~= hex_spec(t));
        }
        i += 1;
    }
    proof {
        assert(bytes@.take(bytes@.len() as int) =~= bytes@);
    }
    string_of(&out)
}

/// The content hash of a text (a file, or a passage in the embedding cache):
/// hex SHA-256 of its UTF-8 bytes.
pub fn content_hash(raw: &str) -> (r: String)
    ensures
        r@ == hex_spec(sha256_of(raw.spec_bytes())),
{
    let d = sha256(raw.as_bytes());
    hex(d.as_slice())
}

// ---------------------------------------------------------------------------
// Whole documents
// ---------------------------------------------------------------------------

/// What a file with a frontmatter block yields before its YAML is read: the
/// YAML block, the body, the content hash, the passages and the link targets.
pub struct SplitDoc {
    pub yaml: String,
    pub body: String,
    pub content_hash: String,
    pub chunks: Vec<Chunk>,
    pub wikilinks: Vec<String>,
}

/// Split and analyse a file's text. `None` when it has no frontmatter block
/// (plain Markdown, not a knowledge-base document).
pub fn split_doc(raw: &str) -> (r: Option<SplitDoc>)
    ensures
        match split_frontmatter_spec(raw@) {
            None => r is None,
            Some((y, b)) => r matches Some(d) && {
                &&& d.yaml@ == y
                &&& d.body@ == b
                &&& d.content_hash@ == hex_spec(sha256_of(raw.spec_bytes()))
                &&& chunk_views(d.chunks@) == chunks_of(markdown_events_of(b))
                &&& str_views(d.wikilinks@) == distinct_targets(
                    wikilink_matches_of(prose_fold(markdown_events_of(b)).0),
                )
            },
        },
{
    match split_frontmatter(raw) {
        None => None,
        Some((yaml, body)) => {
            let hash = content_hash(raw);
            let events = markdown_events(body.as_str());
            let chunks = chunk_events(&events);
            let wikilinks = wikilinks_of_events(&events);
            Some(SplitDoc { yaml, body, content_hash: hash, chunks, wikilinks })
        },
    }
}


/// A document parsed from disk, ready to index or lint.
pub struct ParsedDoc {
    pub frontmatter: crate::model::Frontmatter,
    /// The Markdown body (everything after the frontmatter block).
    pub body: String,
    /// Path relative to the docs root, with `/` separators.
    pub rel_path: String,
    /// Hex SHA-256 of the file's text.
    pub content_hash: String,
    pub chunks: Vec<Chunk>,
    /// Distinct `[[targets]]` referenced in the body.
    pub wikilinks: Vec<String>,
}

impl ParsedDoc {
    /// Assemble a parsed document from its read frontmatter and its split.
    pub fn new(frontmatter: crate::model::Frontmatter, split: SplitDoc, rel_path: String) -> (r: ParsedDoc)
        ensures
            r.frontmatter@ == frontmatter@,
            r.body@ == split.body@,
            r.rel_path@ == rel_path@,
            r.content_hash@ == split.content_hash@,
            chunk_views(r.chunks@) == chunk_views(split.chunks@),
            str_views(r.wikilinks@) == str_views(split.wikilinks@),
    {
        let SplitDoc { yaml: _, body, content_hash, chunks, wikilinks } = split;
        ParsedDoc { frontmatter, body, rel_path, content_hash, chunks, wikilinks }
    }
}

} // verus!
