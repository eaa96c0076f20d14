//! Agents, their skill locations, and the managed block in an agent's memory.
//!
//! engrym records repositories in an agent's user-global memory file inside a
//! marker-delimited block; everything outside the block is left untouched.

use vstd::prelude::*;
use crate::text::{
    chars_of, contains_seq, find, lemma_find_from, lemma_find_from_skip, lines,
    lines_exec, no_char, slice_of, starts_with, str_views, string_of, trim, trim_bounds, trim_end,
    trim_start_char, views, find_from_exec, push_all, push_str, trim_end_bound,
    trim_start_char_bound, occurs_at, is_space, lemma_trim_start_len, lemma_trim_end_len,
    lemma_lines_cons, strip_cr, lemma_find, lemma_find_unique, trim_start,
    sort_dedup, lemma_sort_dedup_contains, join, join_exec, lower, lower_exec,
    seq_eq, without, lemma_without, unicode_lowercase, to_lowercase, sorted_distinct,
    insert_sorted, lemma_blank_trim, lemma_trim_start_char_suffix,
};

verus! {

pub const MEM_BEGIN: &'static str = "<!-- engrym:begin (managed by `engrym install memory`) -->";

pub const MEM_END: &'static str = "<!-- engrym:end -->";

pub const MEM_HEADING: &'static str = "## engrym knowledge bases";

pub const MEM_PROSE: &'static str = "The repositories listed below have an engrym knowledge base, queryable with the `engrym` CLI (or the `engrym` skill). When working inside one, retrieve relevant knowledge before a task and capture durable, non-obvious findings after — especially for a local KB, where there is no engrym.toml in the repo to signal that engrym is available.";

// ---------------------------------------------------------------------------
// Model of the managed block
// ---------------------------------------------------------------------------

/// The path a memory line lists, if it is a `- <path>` bullet.
pub open spec fn bullet_path(line: Seq<char>) -> Option<Seq<char>> {
    let t = trim(line);
    if starts_with(t, seq!['-', ' ']) {
        let v = trim(t.skip(2));
        if v.len() > 0 {
            Some(v)
        } else {
            None
        }
    } else {
        None
    }
}

/// The bullet paths among `ls`, in order.
pub open spec fn bullet_paths(ls: Seq<Seq<char>>) -> Seq<Seq<char>>
    decreases ls.len(),
{
    if ls.len() == 0 {
        Seq::empty()
    } else {
        let rest = bullet_paths(ls.drop_first());
        match bullet_path(ls[0]) {
            Some(v) => seq![v] + rest,
            None => rest,
        }
    }
}

/// The repository paths listed in the managed block of `content` (empty when
/// there is no complete block).
pub open spec fn memory_paths(content: Seq<char>) -> Seq<Seq<char>> {
    match find(content, MEM_BEGIN@) {
        None => Seq::empty(),
        Some(start) => match find(content.skip(start), MEM_END@) {
            None => Seq::empty(),
            Some(e) => bullet_paths(lines(content.subrange(start, start + e))),
        },
    }
}

/// `- <path>\n` for each path.
pub open spec fn bullets(paths: Seq<Seq<char>>) -> Seq<char>
    decreases paths.len(),
{
    if paths.len() == 0 {
        Seq::empty()
    } else {
        seq!['-', ' '] + paths[0] + seq!['\n'] + bullets(paths.drop_first())
    }
}

/// Two newlines.
pub open spec fn nn() -> Seq<char> {
    seq!['\n', '\n']
}

/// The block's opening: begin marker, heading and prose.
pub open spec fn block_preamble() -> Seq<char> {
    MEM_BEGIN@ + seq!['\n'] + MEM_HEADING@ + nn() + MEM_PROSE@ + nn()
}

/// The managed block listing `paths` (empty when there are none).
pub open spec fn memory_block(paths: Seq<Seq<char>>) -> Seq<char> {
    if paths.len() == 0 {
        Seq::empty()
    } else {
        block_preamble() + bullets(paths) + MEM_END@
    }
}

/// Trailing whitespace replaced by exactly one newline (empty stays empty).
pub open spec fn normalized_trailing(s: Seq<char>) -> Seq<char> {
    let t = trim_end(s);
    if t.len() == 0 {
        Seq::empty()
    } else {
        t.push('\n')
    }
}

/// Where the existing block ends: just past its end marker, or the end of the
/// text when the marker is missing.
pub open spec fn block_end(content: Seq<char>, start: int) -> int {
    match find(content.skip(start), MEM_END@) {
        Some(e) => start + e + MEM_END@.len(),
        None => content.len() as int,
    }
}

/// `content` with its managed block set to list `paths`: an existing block is
/// replaced, a missing one appended, and an empty list removes the block.
pub open spec fn rendered_memory(content: Seq<char>, paths: Seq<Seq<char>>) -> Seq<char> {
    let block = memory_block(paths);
    match find(content, MEM_BEGIN@) {
        Some(start) => {
            let head = trim_end(content.take(start));
            let tail = trim_start_char(content.skip(block_end(content, start)), '\n');
            let out = (if head.len() > 0 { head + nn() } else { Seq::empty() }) + (if block.len() > 0 {
                block + (if tail.len() > 0 { nn() } else { Seq::empty() })
            } else {
                Seq::empty()
            }) + tail;
            normalized_trailing(out)
        },
        None => if block.len() == 0 {
            content
        } else if trim(content).len() == 0 {
            block.push('\n')
        } else {
            normalized_trailing(trim_end(content) + nn() + block)
        },
    }
}

/// A path the block can list and give back unchanged.
pub open spec fn valid_memory_path(p: Seq<char>) -> bool {
    &&& p.len() > 0
    &&& trim(p) == p
    &&& no_char(p, '\n')
    &&& !contains_seq(p, MEM_END@)
}

// ---------------------------------------------------------------------------
// Executable block handling
// ---------------------------------------------------------------------------

/// The path a memory line lists, if it is a `- <path>` bullet.
fn bullet_path_exec(line: &[char]) -> (r: Option<Vec<char>>)
    ensures
        match r {
            Some(v) => bullet_path(line@) == Some(v@),
            None => bullet_path(line@) is None,
        },
{
    let (a, b) = trim_bounds(line, 0, line.len());
    proof {
        assert(line@.subrange(0, line@.len() as int) =~= line@);
    }
    let ghost t = line@.subrange(a as int, b as int);
    if b - a >= 2 && line[a] == '-' && line[a + 1] == ' ' {
        let (c, d) = trim_bounds(line, a + 2, b);
        proof {
            assert(t.take(2) =~= seq!['-', ' ']);
            assert(t.skip(2) =~= line@.subrange(a + 2, b as int));
        }
        if d > c {
            Some(slice_of(line, c, d))
        } else {
            None
        }
    } else {
        proof {
            if starts_with(t, seq!['-', ' ']) {
                assert(t.take(2)[0] == '-');
                assert(t.take(2)[1] == ' ');
            }
        }
        None
    }
}

/// The repository paths currently listed in the managed block (empty if absent).
pub fn parse_memory_block(content: &str) -> (res: Vec<String>)
    ensures
        str_views(res@) == memory_paths(content@),
{
    let cs = chars_of(content);
    let begin = chars_of(MEM_BEGIN);
    let end = chars_of(MEM_END);
    let mut out: Vec<String> = Vec::new();
    let start = match find_from_exec(&cs, &begin, 0) {
        Some(s) => s,
        None => {
            proof {
                assert(str_views(out@) =~= Seq::<Seq<char>>::empty());
            }
            return out;
        },
    };
    proof {
        lemma_find_from(cs@, begin@, 0);
        lemma_find_from_skip(cs@, end@, start as int);
    }
    let stop = match find_from_exec(&cs, &end, start) {
        Some(k) => k,
        None => {
            proof {
                assert(str_views(out@) =~= Seq::<Seq<char>>::empty());
            }
            return out;
        },
    };
    proof {
        lemma_find_from(cs@, end@, start as int);
    }
    let seg = slice_of(&cs, start, stop);
    let ls = lines_exec(&seg);
    let mut i: usize = 0;
    proof {
        assert(views(ls@).skip(0) =~= views(ls@));
        assert(str_views(out@) + views(ls@) =~= views(ls@));
        assert(str_views(out@) =~= Seq::<Seq<char>>::empty());
        assert(str_views(out@) + bullet_paths(views(ls@)) =~= bullet_paths(views(ls@)));
    }
    while i < ls.len()
        invariant
            i <= ls@.len(),
            bullet_paths(views(ls@)) == str_views(out@) + bullet_paths(views(ls@).skip(i as int)),
        decreases ls@.len() - i,
    {
        proof {
            assert(views(ls@).skip(i as int).drop_first() =~= views(ls@).skip(i + 1));
            assert(views(ls@).skip(i as int)[0] == ls@[i as int]@);
        }
        match bullet_path_exec(&ls[i]) {
            Some(v) => {
                let st = string_of(&v);
                proof {
                    assert(str_views(out@.push(st)) =~= str_views(out@) + seq![v@]);
                }
                out.push(st);
            },
            None => {},
        }
        i += 1;
    }
    proof {
        assert(views(ls@).skip(i as int) =~= Seq::<Seq<char>>::empty());
        assert(str_views(out@) + Seq::<Seq<char>>::empty() =~= str_views(out@));
    }
    out
}

/// The bullets of two path lists are the bullets of each, one after the other.
pub proof fn lemma_bullets_append(a: Seq<Seq<char>>, b: Seq<Seq<char>>)
    ensures
        bullets(a + b) == bullets(a) + bullets(b),
    decreases a.len(),
{
    if a.len() == 0 {
        assert(a + b =~= b);
    } else {
        assert((a + b).drop_first() =~= a.drop_first() + b);
        lemma_bullets_append(a.drop_first(), b);
    }
}

/// The managed block listing `paths`.
fn memory_block_exec(paths: &[String]) -> (r: Vec<char>)
    ensures
        r@ == memory_block(str_views(paths@)),
{
    let mut out: Vec<char> = Vec::new();
    if paths.len() == 0 {
        return out;
    }
    push_str(&mut out, MEM_BEGIN);
    out.push('\n');
    push_str(&mut out, MEM_HEADING);
    out.push('\n');
    out.push('\n');
    push_str(&mut out, MEM_PROSE);
    out.push('\n');
    out.push('\n');
    proof {
        assert(out@ =~= block_preamble());
        assert(str_views(paths@).take(0) =~= Seq::<Seq<char>>::empty());
        assert(out@ =~= block_preamble() + bullets(str_views(paths@).take(0)));
    }
    let mut i: usize = 0;
    while i < paths.len()
        invariant
            i <= paths@.len(),
            out@ == block_preamble() + bullets(str_views(paths@).take(i as int)),
        decreases paths@.len() - i,
    {
        let ghost before = out@;
        out.push('-');
        out.push(' ');
        push_str(&mut out, paths[i].as_str());
        out.push('\n');
        proof {
            let ps = str_views(paths@);
            assert(ps.take(i + 1) =~= ps.take(i as int) + seq![ps[i as int]]);
            lemma_bullets_append(ps.take(i as int), seq![ps[i as int]]);
            assert(seq![ps[i as int]].drop_first() =~= Seq::<Seq<char>>::empty());
            assert(bullets(Seq::<Seq<char>>::empty()) =~= Seq::<char>::empty());
            assert(bullets(seq![ps[i as int]]) =~= seq!['-', ' '] + ps[i as int] + seq!['\n']);
            assert(out@ =~= block_preamble() + bullets(ps.take(i + 1)));
        }
        i += 1;
    }
    push_str(&mut out, MEM_END);
    proof {
        assert(str_views(paths@).take(paths@.len() as int) =~= str_views(paths@));
    }
    out
}

/// `s` with its trailing whitespace replaced by one newline.
fn normalized_trailing_exec(s: &[char]) -> (r: Vec<char>)
    ensures
        r@ == normalized_trailing(s@),
{
    let e = trim_end_bound(s, 0, s.len());
    proof {
        assert(s@.subrange(0, s@.len() as int) =~= s@);
    }
    let mut out = slice_of(s, 0, e);
    if e > 0 {
        out.push('\n');
    }
    out
}

/// `s` with trailing whitespace replaced by exactly one newline; a blank `s`
/// becomes empty.
pub fn normalize_trailing(s: &str) -> (r: String)
    ensures
        r@ == normalized_trailing(s@),
{
    let cs = chars_of(s);
    let out = normalized_trailing_exec(&cs);
    string_of(&out)
}

/// Splice the managed block, set to list `paths`, into `content`: an existing
/// block is replaced, a missing one appended, and an empty list removes it.
pub fn render_memory_block(content: &str, paths: &[String]) -> (r: String)
    ensures
        r@ == rendered_memory(content@, str_views(paths@)),
{
    let cs = chars_of(content);
    let begin = chars_of(MEM_BEGIN);
    let endm = chars_of(MEM_END);
    let block = memory_block_exec(paths);
    let n = cs.len();
    proof {
        lemma_find_from(cs@, begin@, 0);
    }
    match find_from_exec(&cs, &begin, 0) {
        Some(start) => {
            proof {
                lemma_find_from_skip(cs@, endm@, start as int);
                lemma_find_from(cs@, endm@, start as int);
            }
            let end = match find_from_exec(&cs, &endm, start) {
                Some(k) => {
                    assert(occurs_at(cs@, endm@, k as int));
                    assert(k + endm@.len() <= n);
                    k + endm.len()
                },
                None => cs.len(),
            };
            assert(end as int == block_end(cs@, start as int));
            let h = trim_end_bound(&cs, 0, start);
            let t = trim_start_char_bound(&cs, end, cs.len(), '\n');
            proof {
                assert(cs@.take(start as int) =~= cs@.subrange(0, start as int));
                assert(cs@.skip(end as int) =~= cs@.subrange(end as int, cs@.len() as int));
            }
            let mut out: Vec<char> = Vec::new();
            if h > 0 {
                let head = slice_of(&cs, 0, h);
                push_all(&mut out, &head);
                out.push('\n');
                out.push('\n');
            }
            let ghost o1 = out@;
            if block.len() > 0 {
                push_all(&mut out, &block);
                if t < cs.len() {
                    out.push('\n');
                    out.push('\n');
                }
            }
            let ghost o2 = out@;
            let tail = slice_of(&cs, t, cs.len());
            push_all(&mut out, &tail);
            proof {
                let head = trim_end(cs@.take(start as int));
                let tl = trim_start_char(cs@.skip(end as int), '\n');
                assert(o1 =~= (if head.len() > 0 { head + nn() } else { Seq::empty() }));
                assert(o2 =~= o1 + (if block@.len() > 0 {
                    block@ + (if tl.len() > 0 { nn() } else { Seq::empty() })
                } else {
                    Seq::empty()
                }));
                assert(tail@ =~= tl);
                assert(out@ =~= o2 + tl);
                assert(find(cs@, begin@) == Some(start as int));
            }
            let res = normalized_trailing_exec(&out);
            assert(res@ == rendered_memory(content@, str_views(paths@)));
            string_of(&res)
        },
        None => {
            assert(find(cs@, begin@) is None);
            if block.len() == 0 {
                assert(memory_block(str_views(paths@)).len() == 0);
                return string_of(&cs);
            }
            let (a, b) = trim_bounds(&cs, 0, cs.len());
            proof {
                assert(cs@.subrange(0, cs@.len() as int) =~= cs@);
            }
            if b == a {
                let mut out = block;
                out.push('\n');
                assert(trim(cs@).len() == 0);
                return string_of(&out);
            }
            let e = trim_end_bound(&cs, 0, cs.len());
            let mut out = slice_of(&cs, 0, e);
            out.push('\n');
            out.push('\n');
            push_all(&mut out, &block);
            assert(trim(cs@).len() != 0);
            assert(out@ =~= trim_end(cs@) + nn() + block@);
            let res = normalized_trailing_exec(&out);
            string_of(&res)
        },
    }
}


// ---------------------------------------------------------------------------
// Laws of the managed block
// ---------------------------------------------------------------------------

/// Facts about the marker texts.
proof fn lemma_marker_facts()
    ensures
        no_char(MEM_BEGIN@, '\n'),
        no_char(MEM_END@, '\n'),
        no_char(MEM_HEADING@, '\n'),
        no_char(MEM_PROSE@, '\n'),
        MEM_BEGIN@.len() > 13 && MEM_BEGIN@[0] == '<' && MEM_BEGIN@[12] == 'b',
        MEM_BEGIN@.last() == '>',
        forall|j: int| 1 <= j < MEM_BEGIN@.len() ==> MEM_BEGIN@[j] != '<',
        MEM_END@.len() == 19 && MEM_END@[0] == '<' && MEM_END@[12] == 'e' && MEM_END@.last() == '>',
        MEM_HEADING@.len() > 0 && MEM_HEADING@[0] == '#' && MEM_HEADING@.last() == 's',
        forall|j: int| 0 <= j < MEM_HEADING@.len() ==> MEM_HEADING@[j] != '<',
        MEM_PROSE@.len() > 0 && MEM_PROSE@[0] == 'T' && MEM_PROSE@.last() == '.',
        forall|j: int| 0 <= j < MEM_PROSE@.len() ==> MEM_PROSE@[j] != '<',
{
    reveal_strlit("<!-- engrym:begin (managed by `engrym install memory`) -->");
    reveal_strlit("<!-- engrym:end -->");
    reveal_strlit("## engrym knowledge bases");
    reveal_strlit("The repositories listed below have an engrym knowledge base, queryable with the `engrym` CLI (or the `engrym` skill). When working inside one, retrieve relevant knowledge before a task and capture durable, non-obvious findings after — especially for a local KB, where there is no engrym.toml in the repo to signal that engrym is available.");
}

/// An occurrence of a newline-free pattern that starts before a newline that
/// ends `a` lies inside `a`, short of that newline.
proof fn lemma_occ_before_newline(a: Seq<char>, b: Seq<char>, q: Seq<char>, j: int)
    requires
        no_char(q, '\n'),
        a.len() > 0,
        a.last() == '\n',
        occurs_at(a + b, q, j),
        j < a.len(),
    ensures
        j + q.len() < a.len(),
        occurs_at(a, q, j),
{
    if j + q.len() >= a.len() {
        let k = a.len() - 1 - j;
        assert((a + b).subrange(j, j + q.len())[k] == q[k]);
        assert((a + b)[a.len() - 1] == '\n');
    }
    assert(a.subrange(j, j + q.len()) =~= (a + b).subrange(j, j + q.len()));
}

/// An occurrence in `a + b` at or after `a` is one in `b`.
proof fn lemma_occ_right(a: Seq<char>, b: Seq<char>, q: Seq<char>, j: int)
    requires
        occurs_at(a + b, q, j),
        j >= a.len(),
    ensures
        occurs_at(b, q, j - a.len()),
{
    assert(b.subrange(j - a.len(), j - a.len() + q.len()) =~= (a + b).subrange(j, j + q.len()));
}

/// A trimmed, non-empty text starts and ends with non-whitespace.
proof fn lemma_trimmed_ends(p: Seq<char>)
    requires
        p.len() > 0,
        trim(p) == p,
    ensures
        !is_space(p[0]),
        !is_space(p.last()),
{
    lemma_trim_start_len(p);
    lemma_trim_end_len(trim_start(p));
    if is_space(p[0]) {
        assert(trim_start(p) == trim_start(p.drop_first()));
        lemma_trim_start_len(p.drop_first());
    }
    assert(trim_start(p) == p);
    if is_space(p.last()) {
        assert(trim_end(p) == trim_end(p.drop_last()));
        lemma_trim_end_len(p.drop_last());
    }
}

/// Trailing whitespace past a non-whitespace character stays in the suffix.
proof fn lemma_trim_end_concat(a: Seq<char>, b: Seq<char>)
    requires
        a.len() > 0,
        !is_space(a.last()),
    ensures
        trim_end(a + b) == a + trim_end(b),
    decreases b.len(),
{
    if b.len() == 0 {
        assert(a + b =~= a);
        assert(a + trim_end(b) =~= a);
    } else if is_space(b.last()) {
        assert((a + b).drop_last() =~= a + b.drop_last());
        lemma_trim_end_concat(a, b.drop_last());
    } else {
        assert((a + b).last() == b.last());
    }
}

/// The bullet list holds no end marker.
proof fn lemma_bullets_no_end(ps: Seq<Seq<char>>, j: int)
    requires
        forall|i: int| 0 <= i < ps.len() ==> !contains_seq(#[trigger] ps[i], MEM_END@),
    ensures
        !occurs_at(bullets(ps), MEM_END@, j),
    decreases ps.len(),
{
    lemma_marker_facts();
    if ps.len() > 0 {
        let p = ps[0];
        assert(!contains_seq(ps[0], MEM_END@));
        let a = seq!['-', ' '] + p + seq!['\n'];
        let rest = ps.drop_first();
        assert(bullets(ps) =~= a + bullets(rest));
        if occurs_at(bullets(ps), MEM_END@, j) {
            if j < a.len() {
                lemma_occ_before_newline(a, bullets(rest), MEM_END@, j);
                if j == 0 || j == 1 {
                    assert(a.subrange(j, j + 19)[0] == MEM_END@[0]);
                } else {
                    assert(p.subrange(j - 2, j - 2 + 19) =~= a.subrange(j, j + 19));
                    assert(occurs_at(p, MEM_END@, j - 2));
                }
            } else {
                lemma_occ_right(a, bullets(rest), MEM_END@, j);
                assert forall|i: int| 0 <= i < rest.len() implies !contains_seq(#[trigger] rest[i], MEM_END@) by {
                    assert(rest[i] == ps[i + 1]);
                }
                lemma_bullets_no_end(rest, j - a.len());
            }
        }
    }
}

/// The preamble holds no end marker.
proof fn lemma_preamble_no_end(j: int)
    ensures
        !occurs_at(block_preamble(), MEM_END@, j),
{
    lemma_marker_facts();
    let pre = block_preamble();
    if occurs_at(pre, MEM_END@, j) {
        assert(pre.subrange(j, j + 19)[0] == '<');
        assert(pre[j] == '<');
        let b = MEM_BEGIN@.len();
        let h = MEM_HEADING@.len();
        if j == 0 {
            assert(pre.subrange(0, 19)[12] == pre[12]);
            assert(pre[12] == MEM_BEGIN@[12]);
        } else if j < b {
            assert(pre[j] == MEM_BEGIN@[j]);
        } else if j == b {
            assert(pre[j] == '\n');
        } else if j < b + 1 + h {
            assert(pre[j] == MEM_HEADING@[j - b - 1]);
        } else if j < b + 1 + h + 2 {
            assert(pre[j] == '\n');
        } else if j < b + 3 + h + MEM_PROSE@.len() {
            assert(pre[j] == MEM_PROSE@[j - b - 3 - h]);
        } else {
            assert(pre[j] == '\n');
        }
    }
}

/// Lines of the bullet list are the `- <path>` lines.
proof fn lemma_lines_bullets(ps: Seq<Seq<char>>)
    requires
        forall|i: int| 0 <= i < ps.len() ==> valid_memory_path(#[trigger] ps[i]),
    ensures
        bullet_paths(lines(bullets(ps))) == ps,
    decreases ps.len(),
{
    if ps.len() == 0 {
        assert(bullets(ps) =~= Seq::<char>::empty());
        assert(bullet_paths(Seq::<Seq<char>>::empty()) =~= Seq::<Seq<char>>::empty());
    } else {
        let p = ps[0];
        assert(valid_memory_path(ps[0]));
        lemma_trimmed_ends(p);
        let line = seq!['-', ' '] + p;
        let rest = ps.drop_first();
        assert(bullets(ps) =~= line + seq!['\n'] + bullets(rest));
        assert forall|i: int| 0 <= i < line.len() implies line[i] != '\n' by {
            if i >= 2 {
                assert(line[i] == p[i - 2]);
            }
        }
        lemma_lines_cons(line, bullets(rest));
        assert(line.last() == p.last());
        assert(strip_cr(line) == line);
        assert(line[0] == '-');
        assert(trim(line) == line) by {
            assert(trim_start(line) == line);
        }
        assert(line.take(2) =~= seq!['-', ' ']);
        assert(line.skip(2) =~= p);
        assert(bullet_path(line) == Some(p));
        assert(lines(bullets(ps)) =~= seq![line] + lines(bullets(rest)));
        assert((seq![line] + lines(bullets(rest))).drop_first() =~= lines(bullets(rest)));
        assert forall|i: int| 0 <= i < rest.len() implies valid_memory_path(#[trigger] rest[i]) by {
            assert(rest[i] == ps[i + 1]);
        }
        lemma_lines_bullets(rest);
        assert(seq![p] + rest =~= ps);
    }
}

proof fn lemma_bullet_paths_append(a: Seq<Seq<char>>, b: Seq<Seq<char>>)
    ensures
        bullet_paths(a + b) == bullet_paths(a) + bullet_paths(b),
    decreases a.len(),
{
    if a.len() == 0 {
        assert(a + b =~= b);
        assert(bullet_paths(a) + bullet_paths(b) =~= bullet_paths(b));
    } else {
        assert((a + b).drop_first() =~= a.drop_first() + b);
        lemma_bullet_paths_append(a.drop_first(), b);
        assert((a + b)[0] == a[0]);
        match bullet_path(a[0]) {
            Some(v) => {
                assert(seq![v] + (bullet_paths(a.drop_first()) + bullet_paths(b)) =~= (seq![v]
                    + bullet_paths(a.drop_first())) + bullet_paths(b));
            },
            None => {},
        }
    }
}

/// A line that does not start with `- ` after trimming lists nothing.
proof fn lemma_not_bullet(line: Seq<char>)
    requires
        line.len() > 0,
        !is_space(line[0]),
        !is_space(line.last()),
        line[0] != '-',
    ensures
        bullet_path(line) is None,
{
    assert(trim_start(line) == line);
    assert(trim(line) == line);
    if starts_with(line, seq!['-', ' ']) {
        assert(line.take(2)[0] == line[0]);
    }
}

/// The block's lines list exactly its paths.
proof fn lemma_block_lines(ps: Seq<Seq<char>>)
    requires
        forall|i: int| 0 <= i < ps.len() ==> valid_memory_path(#[trigger] ps[i]),
    ensures
        bullet_paths(lines(block_preamble() + bullets(ps))) == ps,
{
    lemma_marker_facts();
    let b = MEM_BEGIN@;
    let h = MEM_HEADING@;
    let p = MEM_PROSE@;
    let e: Seq<char> = Seq::empty();
    let bl = bullets(ps);
    let r4 = e + seq!['\n'] + bl;
    let r3 = p + seq!['\n'] + r4;
    let r2 = e + seq!['\n'] + r3;
    let r1 = h + seq!['\n'] + r2;
    assert(block_preamble() + bl =~= b + seq!['\n'] + r1);
    lemma_lines_cons(b, r1);
    lemma_lines_cons(h, r2);
    lemma_lines_cons(e, r3);
    lemma_lines_cons(p, r4);
    lemma_lines_cons(e, bl);
    assert(strip_cr(b) == b);
    assert(strip_cr(h) == h);
    assert(strip_cr(p) == p);
    assert(strip_cr(e) =~= e);
    let front = seq![b, h, e, p, e];
    assert(lines(block_preamble() + bl) =~= front + lines(bl));
    lemma_bullet_paths_append(front, lines(bl));
    lemma_not_bullet(b);
    lemma_not_bullet(h);
    lemma_not_bullet(p);
    assert(bullet_path(e) is None) by {
        assert(trim(e) =~= e);
    }
    assert(front.drop_first() =~= seq![h, e, p, e]);
    assert(seq![h, e, p, e].drop_first() =~= seq![e, p, e]);
    assert(seq![e, p, e].drop_first() =~= seq![p, e]);
    assert(seq![p, e].drop_first() =~= seq![e]);
    assert(seq![e].drop_first() =~= Seq::<Seq<char>>::empty());
    assert(bullet_paths(Seq::<Seq<char>>::empty()) =~= Seq::<Seq<char>>::empty());
    assert(bullet_paths(seq![e]) =~= Seq::<Seq<char>>::empty());
    assert(bullet_paths(seq![p, e]) =~= Seq::<Seq<char>>::empty());
    assert(bullet_paths(seq![e, p, e]) =~= Seq::<Seq<char>>::empty());
    assert(bullet_paths(seq![h, e, p, e]) =~= Seq::<Seq<char>>::empty());
    assert(bullet_paths(front) =~= Seq::<Seq<char>>::empty());
    lemma_lines_bullets(ps);
    assert(Seq::<Seq<char>>::empty() + ps =~= ps);
}

/// The block's markers are the first begin marker after newline-ended text
/// `x`, and the first end marker after it.
proof fn lemma_block_markers(x: Seq<char>, ps: Seq<Seq<char>>, w: Seq<char>)
    requires
        ps.len() > 0,
        forall|i: int| 0 <= i < ps.len() ==> !contains_seq(#[trigger] ps[i], MEM_END@),
        forall|j: int| !occurs_at(x, MEM_BEGIN@, j),
        x.len() == 0 || x.last() == '\n',
    ensures
        find(x + memory_block(ps) + w, MEM_BEGIN@) == Some(x.len() as int),
        find((x + memory_block(ps) + w).skip(x.len() as int), MEM_END@)
            == Some(memory_block(ps).len() - MEM_END@.len()),
{
    lemma_marker_facts();
    let pre = block_preamble();
    let bl = bullets(ps);
    let block = memory_block(ps);
    let out = x + block + w;
    let bw = block + w;
    assert(out =~= x + bw);
    // The first begin marker is the block's.
    assert(bw.subrange(0, MEM_BEGIN@.len() as int) =~= MEM_BEGIN@);
    assert(out.subrange(x.len() as int, (x.len() + MEM_BEGIN@.len()) as int) =~= MEM_BEGIN@);
    assert forall|j: int| 0 <= j < x.len() implies !occurs_at(out, MEM_BEGIN@, j) by {
        if occurs_at(out, MEM_BEGIN@, j) {
            lemma_occ_before_newline(x, bw, MEM_BEGIN@, j);
        }
    }
    lemma_find_unique(out, MEM_BEGIN@, x.len() as int);
    assert(out.skip(x.len() as int) =~= bw);
    // The first end marker after it closes the block.
    let k: int = (pre.len() + bl.len()) as int;
    assert(bl.len() > 0) by {
        assert(bl =~= seq!['-', ' '] + ps[0] + seq!['\n'] + bullets(ps.drop_first()));
    }
    let pb = pre + bl;
    assert(pb.last() == '\n') by {
        lemma_bullets_last(ps);
    }
    assert(bw =~= pb + (MEM_END@ + w));
    assert(bw.subrange(k, k + 19) =~= MEM_END@);
    assert forall|j: int| 0 <= j < k implies !occurs_at(bw, MEM_END@, j) by {
        if occurs_at(bw, MEM_END@, j) {
            lemma_occ_before_newline(pb, MEM_END@ + w, MEM_END@, j);
            if j < pre.len() {
                assert(pre.last() == '\n');
                lemma_occ_before_newline(pre, bl, MEM_END@, j);
                lemma_preamble_no_end(j);
            } else {
                lemma_occ_right(pre, bl, MEM_END@, j);
                lemma_bullets_no_end(ps, j - pre.len());
            }
        }
    }
    lemma_find_unique(bw, MEM_END@, k);
}

/// Reading back a text that is `x + block + w`, where `x` holds no begin
/// marker and is empty or ends with a newline, gives the block's paths.
proof fn lemma_read_back(x: Seq<char>, ps: Seq<Seq<char>>, w: Seq<char>)
    requires
        ps.len() > 0,
        forall|i: int| 0 <= i < ps.len() ==> valid_memory_path(#[trigger] ps[i]),
        forall|j: int| !occurs_at(x, MEM_BEGIN@, j),
        x.len() == 0 || x.last() == '\n',
    ensures
        memory_paths(x + memory_block(ps) + w) == ps,
        find(x + memory_block(ps) + w, MEM_BEGIN@) == Some(x.len() as int),
        find((x + memory_block(ps) + w).skip(x.len() as int), MEM_END@)
            == Some(memory_block(ps).len() - MEM_END@.len()),
{
    assert forall|i: int| 0 <= i < ps.len() implies !contains_seq(#[trigger] ps[i], MEM_END@) by {
        assert(valid_memory_path(ps[i]));
    }
    lemma_block_markers(x, ps, w);
    let pre = block_preamble();
    let bl = bullets(ps);
    let out = x + memory_block(ps) + w;
    let k: int = (pre.len() + bl.len()) as int;
    assert(memory_block(ps) =~= pre + bl + MEM_END@);
    assert(out.subrange(x.len() as int, x.len() as int + k) =~= pre + bl);
    lemma_block_lines(ps);
}

proof fn lemma_bullets_last(ps: Seq<Seq<char>>)
    requires
        ps.len() > 0,
    ensures
        bullets(ps).len() > 0,
        bullets(ps).last() == '\n',
    decreases ps.len(),
{
    let rest = ps.drop_first();
    let a = seq!['-', ' '] + ps[0] + seq!['\n'];
    assert(bullets(ps) =~= a + bullets(rest));
    if rest.len() > 0 {
        lemma_bullets_last(rest);
    } else {
        assert(bullets(rest) =~= Seq::<char>::empty());
    }
}

/// Reading back what was rendered gives the listed paths: the managed block
/// round-trips any list of valid paths, whatever surrounds it; an empty list
/// reads back empty when the file held at most one block.
pub proof fn lemma_memory_roundtrip(content: Seq<char>, ps: Seq<Seq<char>>)
    requires
        ps.len() > 0 || begin_at_most_once(content),
        forall|i: int| 0 <= i < ps.len() ==> valid_memory_path(#[trigger] ps[i]),
    ensures
        memory_paths(rendered_memory(content, ps)) == ps,
{
    if ps.len() == 0 {
        lemma_clear_reads_empty(content);
        assert(ps =~= Seq::<Seq<char>>::empty());
    } else {
        lemma_nonempty_roundtrip(content, ps);
    }
}

/// The round trip of a non-empty list of valid paths.
proof fn lemma_nonempty_roundtrip(content: Seq<char>, ps: Seq<Seq<char>>)
    requires
        ps.len() > 0,
        forall|i: int| 0 <= i < ps.len() ==> valid_memory_path(#[trigger] ps[i]),
    ensures
        memory_paths(rendered_memory(content, ps)) == ps,
{
    lemma_marker_facts();
    let block = memory_block(ps);
    lemma_find(content, MEM_BEGIN@);
    assert(block.len() > 0);
    assert(block.last() == '>') by {
        assert(block.last() == MEM_END@.last());
    }
    match find(content, MEM_BEGIN@) {
        Some(start) => {
            let head = trim_end(content.take(start));
            let tail = trim_start_char(content.skip(block_end(content, start)), '\n');
            let x = if head.len() > 0 { head + nn() } else { Seq::empty() };
            let z = (if tail.len() > 0 { nn() } else { Seq::empty() }) + tail;
            lemma_trim_end_len(content.take(start));
            assert forall|j: int| !occurs_at(x, MEM_BEGIN@, j) by {
                if occurs_at(x, MEM_BEGIN@, j) {
                    assert(x.len() > 0);
                    let hn = head + seq!['\n'];
                    assert(x =~= hn + seq!['\n']);
                    lemma_occ_before_newline(hn, seq!['\n'], MEM_BEGIN@, j);
                    assert(head.subrange(j, j + MEM_BEGIN@.len()) =~= hn.subrange(j, j + MEM_BEGIN@.len()));
                    assert(head =~= content.take(head.len() as int));
                    assert(content.subrange(j, j + MEM_BEGIN@.len()) =~= head.subrange(j, j + MEM_BEGIN@.len()));
                    assert(occurs_at(content, MEM_BEGIN@, j));
                }
            }
            let out = x + block + z;
            let n: Seq<char> = if tail.len() > 0 { nn() } else { Seq::empty() };
            assert(rendered_memory(content, ps) == normalized_trailing(out)) by {
                assert((x + (block + n)) + tail =~= out);
            }
            lemma_trim_end_concat(x + block, z);
            assert((x + block).last() == '>');
            let w = trim_end(z).push('\n');
            assert(normalized_trailing(out) =~= x + block + w);
            lemma_read_back(x, ps, w);
        },
        None => {
            if trim(content).len() == 0 {
                assert(block.push('\n') =~= Seq::<char>::empty() + block + seq!['\n']);
                lemma_read_back(Seq::empty(), ps, seq!['\n']);
            } else {
                let x = trim_end(content) + nn();
                lemma_trim_end_len(content);
                assert forall|j: int| !occurs_at(x, MEM_BEGIN@, j) by {
                    if occurs_at(x, MEM_BEGIN@, j) {
                        let t = trim_end(content);
                        let tn = t + seq!['\n'];
                        assert(x =~= tn + seq!['\n']);
                        lemma_occ_before_newline(tn, seq!['\n'], MEM_BEGIN@, j);
                        assert(t.subrange(j, j + MEM_BEGIN@.len()) =~= tn.subrange(j, j + MEM_BEGIN@.len()));
                        assert(t =~= content.take(t.len() as int));
                        assert(content.subrange(j, j + MEM_BEGIN@.len()) =~= t.subrange(j, j + MEM_BEGIN@.len()));
                        assert(occurs_at(content, MEM_BEGIN@, j));
                    }
                }
                let e: Seq<char> = Seq::empty();
                lemma_trim_end_concat(x + block, e);
                assert(x + block + e =~= x + block);
                assert(trim_end(e) =~= e);
                assert(normalized_trailing(x + block) =~= x + block + seq!['\n']);
                lemma_read_back(x, ps, seq!['\n']);
            }
        },
    }
}


// ---------------------------------------------------------------------------
// Recording and forgetting a repository
// ---------------------------------------------------------------------------

/// The memory text after recording `repo`, and whether it changed: a repo
/// already listed leaves the text alone; otherwise the block lists the sorted,
/// distinct paths with `repo` added.
pub open spec fn added_memory(content: Seq<char>, repo: Seq<char>) -> (Seq<char>, bool) {
    let ps = memory_paths(content);
    if ps.contains(repo) {
        (content, false)
    } else {
        (rendered_memory(content, sort_dedup(ps.push(repo))), true)
    }
}

/// The memory text after forgetting `repo`, and whether it changed.
pub open spec fn removed_memory(content: Seq<char>, repo: Seq<char>) -> (Seq<char>, bool) {
    let ps = memory_paths(content);
    let kept = without(ps, repo);
    if kept.len() == ps.len() {
        (content, false)
    } else {
        (rendered_memory(content, kept), true)
    }
}

/// Whether `v` holds a string equal to `x`.
fn contains_string(v: &Vec<String>, x: &String) -> (b: bool)
    ensures
        b == str_views(v@).contains(x@),
{
    let mut i: usize = 0;
    while i < v.len()
        invariant
            i <= v@.len(),
            forall|j: int| 0 <= j < i ==> v@[j]@ != x@,
        decreases v@.len() - i,
    {
        if v[i] == *x {
            assert(str_views(v@)[i as int] == x@);
            return true;
        }
        i += 1;
    }
    proof {
        if str_views(v@).contains(x@) {
            let j = choose|j: int| 0 <= j < str_views(v@).len() && str_views(v@)[j] == x@;
            assert(v@[j]@ == x@);
        }
    }
    false
}

/// Record `repo` in the managed block of an agent's memory text. Returns the
/// new text and whether anything was added (`false` when already listed).
pub fn add_memory_path(content: &str, repo: &str) -> (r: (String, bool))
    ensures
        (r.0@, r.1) == added_memory(content@, repo@),
{
    let mut paths = parse_memory_block(content);
    let key = repo.to_owned();
    if contains_string(&paths, &key) {
        return (content.to_owned(), false);
    }
    let ghost before = str_views(paths@);
    paths.push(key);
    proof {
        assert(str_views(paths@) =~= before.push(repo@));
    }
    let sorted = sorted_distinct(&paths);
    (render_memory_block(content, &sorted), true)
}

/// Remove `repo` from the managed block of an agent's memory text. Returns the
/// new text and whether anything was removed.
pub fn remove_memory_path(content: &str, repo: &str) -> (r: (String, bool))
    ensures
        (r.0@, r.1) == removed_memory(content@, repo@),
{
    let paths = parse_memory_block(content);
    let key = repo.to_owned();
    let mut kept: Vec<String> = Vec::new();
    let mut i: usize = 0;
    proof {
        assert(str_views(paths@).take(0) =~= Seq::<Seq<char>>::empty());
        assert(str_views(kept@) =~= Seq::<Seq<char>>::empty());
    }
    while i < paths.len()
        invariant
            i <= paths@.len(),
            key@ == repo@,
            str_views(kept@) == without(str_views(paths@).take(i as int), repo@),
        decreases paths@.len() - i,
    {
        let ghost t = str_views(paths@).take(i + 1);
        proof {
            assert(t.drop_last() =~= str_views(paths@).take(i as int));
            assert(t.last() == paths@[i as int]@);
        }
        if paths[i] != key {
            let s = paths[i].clone();
            kept.push(s);
            proof {
                assert(str_views(kept@) =~= without(str_views(paths@).take(i as int), repo@).push(paths@[i as int]@));
            }
        }
        i += 1;
    }
    proof {
        assert(str_views(paths@).take(paths@.len() as int) =~= str_views(paths@));
    }
    if kept.len() == paths.len() {
        return (content.to_owned(), false);
    }
    (render_memory_block(content, &kept), true)
}

// ---------------------------------------------------------------------------
// Laws of recording and forgetting
// ---------------------------------------------------------------------------

/// An occurrence in a piece of `s` is an occurrence in `s`.
proof fn lemma_no_occ_subrange(s: Seq<char>, q: Seq<char>, a: int, b: int)
    requires
        !contains_seq(s, q),
        0 <= a <= b <= s.len(),
    ensures
        !contains_seq(s.subrange(a, b), q),
{
    if contains_seq(s.subrange(a, b), q) {
        let j = choose|j: int| occurs_at(s.subrange(a, b), q, j);
        assert(s.subrange(a + j, a + j + q.len()) =~= s.subrange(a, b).subrange(j, j + q.len()));
        assert(occurs_at(s, q, a + j));
    }
}

/// Every line is newline-free and a piece of the text.
proof fn lemma_lines_pieces(s: Seq<char>, q: Seq<char>)
    ensures
        forall|i: int| 0 <= i < lines(s).len() ==> no_char(#[trigger] lines(s)[i], '\n'),
        !contains_seq(s, q) ==> forall|i: int| 0 <= i < lines(s).len() ==> !contains_seq(#[trigger] lines(s)[i], q),
    decreases s.len(),
{
    if s.len() > 0 {
        crate::text::lemma_char_index_from(s, '\n', 0);
        let k = crate::text::char_index_from(s, '\n', 0);
        if k >= s.len() {
            assert(lines(s) =~= seq![s]);
            assert(s.subrange(0, s.len() as int) =~= s);
        } else {
            let first = strip_cr(s.take(k));
            let rest = s.skip(k + 1);
            lemma_lines_pieces(rest, q);
            assert(lines(s) =~= seq![first] + lines(rest));
            assert(no_char(first, '\n')) by {
                assert forall|j: int| 0 <= j < first.len() implies first[j] != '\n' by {
                    assert(first[j] == s[j]);
                }
            }
            if !contains_seq(s, q) {
                let fe = first.len() as int;
                assert(first =~= s.subrange(0, fe));
                lemma_no_occ_subrange(s, q, 0, fe);
                assert(rest =~= s.subrange(k + 1, s.len() as int));
                lemma_no_occ_subrange(s, q, k + 1, s.len() as int);
            }
            assert forall|i: int| 0 <= i < lines(s).len() implies no_char(#[trigger] lines(s)[i], '\n') by {
                if i > 0 {
                    assert(lines(s)[i] == lines(rest)[i - 1]);
                }
            }
            if !contains_seq(s, q) {
                assert forall|i: int| 0 <= i < lines(s).len() implies !contains_seq(#[trigger] lines(s)[i], q) by {
                    if i > 0 {
                        assert(lines(s)[i] == lines(rest)[i - 1]);
                    }
                }
            }
        }
    }
}

/// A trimmed text is its own trim.
proof fn lemma_trim_idem(x: Seq<char>)
    ensures
        trim(trim(x)) == trim(x),
{
    lemma_trim_start_len(x);
    let y = trim_start(x);
    lemma_trim_end_len(y);
    let v = trim_end(y);
    if v.len() > 0 {
        assert(v[0] == y[0]);
    }
    crate::text::lemma_trim_fixed(v);
}

/// A listed path is a valid path.
proof fn lemma_bullet_path_valid(line: Seq<char>)
    requires
        no_char(line, '\n'),
        !contains_seq(line, MEM_END@),
    ensures
        bullet_path(line) matches Some(v) ==> valid_memory_path(v),
{
    if let Some(v) = bullet_path(line) {
        let t = trim(line);
        crate::text::lemma_trim_is_subrange(line);
        let (a, b) = choose|a: int, b: int| 0 <= a <= b <= line.len() && trim(line) == line.subrange(a, b);
        let u = t.skip(2);
        assert(u =~= line.subrange(a + 2, b));
        crate::text::lemma_trim_is_subrange(u);
        let (c, d) = choose|c: int, d: int| 0 <= c <= d <= u.len() && trim(u) == u.subrange(c, d);
        assert(v =~= line.subrange(a + 2 + c, a + 2 + d));
        lemma_no_occ_subrange(line, MEM_END@, a + 2 + c, a + 2 + d);
        assert forall|j: int| 0 <= j < v.len() implies v[j] != '\n' by {
            assert(v[j] == line[a + 2 + c + j]);
        }
        lemma_trim_idem(u);
    }
}

/// Bullet paths are what some line lists.
proof fn lemma_bullet_paths_from(ls: Seq<Seq<char>>, i: int)
    requires
        0 <= i < bullet_paths(ls).len(),
    ensures
        exists|j: int| 0 <= j < ls.len() && bullet_path(#[trigger] ls[j]) == Some(bullet_paths(ls)[i]),
    decreases ls.len(),
{
    let rest = bullet_paths(ls.drop_first());
    match bullet_path(ls[0]) {
        Some(v) => {
            if i == 0 {
                assert(bullet_path(ls[0]) == Some(bullet_paths(ls)[i]));
            } else {
                assert(bullet_paths(ls)[i] == rest[i - 1]);
                lemma_bullet_paths_from(ls.drop_first(), i - 1);
                let j = choose|j: int| 0 <= j < ls.drop_first().len() && bullet_path(#[trigger] ls.drop_first()[j]) == Some(rest[i - 1]);
                assert(ls[j + 1] == ls.drop_first()[j]);
            }
        },
        None => {
            lemma_bullet_paths_from(ls.drop_first(), i);
            let j = choose|j: int| 0 <= j < ls.drop_first().len() && bullet_path(#[trigger] ls.drop_first()[j]) == Some(rest[i]);
            assert(ls[j + 1] == ls.drop_first()[j]);
        },
    }
}

/// Every path the managed block lists is a valid path.
pub proof fn lemma_memory_paths_valid(content: Seq<char>)
    ensures
        forall|i: int| 0 <= i < memory_paths(content).len() ==> valid_memory_path(#[trigger] memory_paths(content)[i]),
{
    if let Some(start) = find(content, MEM_BEGIN@) {
        lemma_find(content, MEM_BEGIN@);
        let rest = content.skip(start);
        if let Some(e) = find(rest, MEM_END@) {
            lemma_find(rest, MEM_END@);
            let seg = content.subrange(start, start + e);
            assert(!contains_seq(seg, MEM_END@)) by {
                if contains_seq(seg, MEM_END@) {
                    let j = choose|j: int| occurs_at(seg, MEM_END@, j);
                    assert(occurs_at(rest, MEM_END@, e));
                    assert(e + MEM_END@.len() <= rest.len());
                    assert(seg.len() == e);
                    assert(0 <= j && j + MEM_END@.len() <= e);
                    assert forall|k: int| 0 <= k < MEM_END@.len() implies #[trigger] rest.subrange(j, j + MEM_END@.len())[k] == seg.subrange(j, j + MEM_END@.len())[k] by {
                        assert(rest[j + k] == content[start + j + k]);
                        assert(seg[j + k] == content[start + j + k]);
                    }
                    assert(rest.subrange(j, j + MEM_END@.len()) =~= seg.subrange(j, j + MEM_END@.len()));
                    assert(occurs_at(rest, MEM_END@, j));
                    assert(MEM_END@.len() > 0) by { lemma_marker_facts(); }
                    assert(j < e);
                }
            }
            lemma_lines_pieces(seg, MEM_END@);
            let ls = lines(seg);
            assert forall|i: int| 0 <= i < memory_paths(content).len() implies valid_memory_path(#[trigger] memory_paths(content)[i]) by {
                lemma_bullet_paths_from(ls, i);
                let j = choose|j: int| 0 <= j < ls.len() && bullet_path(#[trigger] ls[j]) == Some(bullet_paths(ls)[i]);
                lemma_bullet_path_valid(ls[j]);
            }
        }
    }
}

/// Recording a valid path lists it, and keeps every path listed before.
pub proof fn lemma_add_lists_repo(content: Seq<char>, repo: Seq<char>, p: Seq<char>)
    requires
        valid_memory_path(repo),
    ensures
        memory_paths(added_memory(content, repo).0).contains(p) <==> (memory_paths(content).contains(p) || p == repo),
{
    let ps = memory_paths(content);
    if !ps.contains(repo) {
        let all = ps.push(repo);
        let sorted = sort_dedup(all);
        lemma_memory_paths_valid(content);
        assert forall|i: int| 0 <= i < sorted.len() implies valid_memory_path(#[trigger] sorted[i]) by {
            lemma_sort_dedup_contains(all, sorted[i]);
            assert(sorted.contains(sorted[i]));
            let k = choose|k: int| 0 <= k < all.len() && all[k] == sorted[i];
            if k < ps.len() {
                assert(all[k] == ps[k]);
            }
        }
        lemma_sort_dedup_contains(all, repo);
        assert(all[ps.len() as int] == repo);
        assert(sorted.len() > 0);
        lemma_memory_roundtrip(content, sorted);
        lemma_sort_dedup_contains(all, p);
        if ps.contains(p) {
            let k = choose|k: int| 0 <= k < ps.len() && ps[k] == p;
            assert(all[k] == p);
        }
        if all.contains(p) {
            let k = choose|k: int| 0 <= k < all.len() && all[k] == p;
            if k < ps.len() {
                assert(ps[k] == p);
            }
        }
    }
}

/// Recording the same path twice changes nothing the second time.
pub proof fn lemma_add_idempotent(content: Seq<char>, repo: Seq<char>)
    requires
        valid_memory_path(repo),
    ensures
        added_memory(added_memory(content, repo).0, repo) == (added_memory(content, repo).0, false),
{
    lemma_add_lists_repo(content, repo, repo);
}

/// Forgetting a path unlists it and keeps every other listed path, unless it
/// was the only path of a block that another block follows.
pub proof fn lemma_remove_unlists(content: Seq<char>, repo: Seq<char>, p: Seq<char>)
    requires
        !memory_paths(content).contains(repo) || exists|o: Seq<char>|
            memory_paths(content).contains(o) && o != repo,
    ensures
        !memory_paths(removed_memory(content, repo).0).contains(repo),
        p != repo ==> (memory_paths(removed_memory(content, repo).0).contains(p)
            <==> memory_paths(content).contains(p)),
{
    let ps = memory_paths(content);
    let kept = without(ps, repo);
    lemma_without(ps, repo, p);
    lemma_without(ps, repo, repo);
    if kept.len() != ps.len() {
        let o = choose|o: Seq<char>| ps.contains(o) && o != repo;
        lemma_without(ps, repo, o);
        assert(kept.len() > 0);
        lemma_memory_paths_valid(content);
        assert forall|i: int| 0 <= i < kept.len() implies valid_memory_path(#[trigger] kept[i]) by {
            lemma_without(ps, repo, kept[i]);
            assert(kept.contains(kept[i]));
            let k = choose|k: int| 0 <= k < ps.len() && ps[k] == kept[i];
        }
        lemma_memory_roundtrip(content, kept);
    }
}


// ---------------------------------------------------------------------------
// Known agents and where their skills live
// ---------------------------------------------------------------------------

/// The bootstrap skill's installed directory name (deliberately not
/// "engrym-init", which reads like the `init` command).
pub const BOOTSTRAP_SKILL: &'static str = "engrym-bootstrap";

/// The working skill's installed directory name.
pub const WORKING_SKILL: &'static str = "engrym";

/// Where an agent reads skills, in its native convention. Skills install as
/// `<base>/<name>/SKILL.md`.
pub enum SkillLoc {
    /// Relative to the repo root: committed, travels with the repo.
    Project(String),
    /// Relative to `$HOME`: user-global agent config.
    Home(String),
}

impl View for SkillLoc {
    /// Whether the location is under `$HOME`, and its relative path.
    type V = (bool, Seq<char>);

    open spec fn view(&self) -> (bool, Seq<char>) {
        match self {
            SkillLoc::Project(p) => (false, p@),
            SkillLoc::Home(p) => (true, p@),
        }
    }
}

/// `rel` joined under `dir` with one separator (an empty `dir` adds none).
pub open spec fn join_path(dir: Seq<char>, rel: Seq<char>) -> Seq<char> {
    if dir.len() == 0 {
        rel
    } else if dir.last() == '/' {
        dir + rel
    } else {
        dir + seq!['/'] + rel
    }
}

/// `rel` joined under `dir`.
pub fn join_path_exec(dir: &str, rel: &str) -> (r: String)
    ensures
        r@ == join_path(dir@, rel@),
{
    let d = chars_of(dir);
    let mut out = d.clone();
    if d.len() > 0 && d[d.len() - 1] != '/' {
        out.push('/');
    }
    push_str(&mut out, rel);
    proof {
        if d@.len() == 0 {
            assert(out@ =~= rel@);
        }
    }
    string_of(&out)
}

impl SkillLoc {
    /// The directory skills install under: the repo `root` for a project
    /// location, `home` for a user-global one (`None` when `home` is unknown).
    pub fn base(&self, root: &str, home: Option<&str>) -> (r: Option<String>)
        ensures
            match self {
                SkillLoc::Project(p) => r matches Some(b) && b@ == join_path(root@, p@),
                SkillLoc::Home(p) => match home {
                    Some(h) => r matches Some(b) && b@ == join_path(h@, p@),
                    None => r is None,
                },
            },
    {
        match self {
            SkillLoc::Project(p) => Some(join_path_exec(root, p.as_str())),
            SkillLoc::Home(p) => match home {
                Some(h) => Some(join_path_exec(h, p.as_str())),
                None => None,
            },
        }
    }

    /// Short human description of where skills land.
    pub fn describe(&self) -> (r: String)
        ensures
            match self {
                SkillLoc::Project(p) => r@ == p@ + " (committed to this repo)"@,
                SkillLoc::Home(p) => r@ == "~/"@ + p@ + " (user-global)"@,
            },
    {
        let mut out: Vec<char> = Vec::new();
        match self {
            SkillLoc::Project(p) => {
                push_str(&mut out, p.as_str());
                push_str(&mut out, " (committed to this repo)");
            },
            SkillLoc::Home(p) => {
                push_str(&mut out, "~/");
                push_str(&mut out, p.as_str());
                push_str(&mut out, " (user-global)");
            },
        }
        string_of(&out)
    }
}

/// A known agent CLI: how to launch it with a prompt, and where its skills and
/// global memory file live.
pub struct KnownAgent {
    pub label: String,
    pub bin: String,
    /// Launch arguments; `{prompt}` stands for the task.
    pub prompt_args: Vec<String>,
    /// Where skills install in the default in-repo mode.
    pub skills: Option<SkillLoc>,
    /// Where skills install in local mode, when it must differ to keep the
    /// repo untouched (`None`: the in-repo location is reused).
    pub skills_local: Option<SkillLoc>,
    /// The agent's user-global memory file, relative to `$HOME`.
    pub memory: Option<String>,
}

/// The view of an optional skill location.
pub open spec fn loc_opt(l: Option<SkillLoc>) -> Option<(bool, Seq<char>)> {
    match l {
        Some(x) => Some(x@),
        None => None,
    }
}

/// The view of an optional string.
pub open spec fn str_opt(s: Option<String>) -> Option<Seq<char>> {
    match s {
        Some(x) => Some(x@),
        None => None,
    }
}

/// An agent row: label, binary, launch arguments, in-repo skills, local-mode
/// skills and memory file.
pub type AgentRow = (
    Seq<char>,
    Seq<char>,
    Seq<Seq<char>>,
    Option<(bool, Seq<char>)>,
    Option<(bool, Seq<char>)>,
    Option<Seq<char>>,
);

impl View for KnownAgent {
    type V = AgentRow;

    open spec fn view(&self) -> AgentRow {
        (
            self.label@,
            self.bin@,
            str_views(self.prompt_args@),
            loc_opt(self.skills),
            loc_opt(self.skills_local),
            str_opt(self.memory),
        )
    }
}

/// The views of a list of agents.
pub open spec fn agent_rows(v: Seq<KnownAgent>) -> Seq<AgentRow> {
    v.map_values(|a: KnownAgent| a@)
}

/// The agents engrym knows, in menu order.
pub open spec fn agent_table() -> Seq<AgentRow> {
    seq![
        ("OpenAI Codex"@, "codex"@, seq!["{prompt}"@], Some((true, ".codex/skills"@)), None,
            Some(".codex/AGENTS.md"@)),
        ("Gemini CLI"@, "gemini"@, seq!["-i"@, "{prompt}"@], None, None, None),
        ("Aider"@, "aider"@, seq!["--message"@, "{prompt}"@], None, None, None),
        ("opencode"@, "opencode"@, seq!["run"@, "{prompt}"@], Some((false, ".opencode/skills"@)),
            Some((true, ".config/opencode/skills"@)), None),
        ("Amp"@, "amp"@, seq!["{prompt}"@], None, None, None),
        ("Goose"@, "goose"@, seq!["run"@, "-t"@, "{prompt}"@], None, None, None),
    ]
}

fn agent(
    label: &str,
    bin: &str,
    prompt_args: Vec<String>,
    skills: Option<SkillLoc>,
    skills_local: Option<SkillLoc>,
    memory: Option<&str>,
) -> (a: KnownAgent)
    ensures
        a@ == (label@, bin@, str_views(prompt_args@), loc_opt(skills), loc_opt(skills_local),
            match memory { Some(m) => Some(m@), None => None }),
{
    let memory = match memory {
        Some(m) => Some(m.to_owned()),
        None => None,
    };
    KnownAgent { label: label.to_owned(), bin: bin.to_owned(), prompt_args, skills, skills_local, memory }
}

fn strings1(a: &str) -> (v: Vec<String>)
    ensures
        str_views(v@) == seq![a@],
{
    let v = vec![a.to_owned()];
    assert(str_views(v@) =~= seq![a@]);
    v
}

fn strings2(a: &str, b: &str) -> (v: Vec<String>)
    ensures
        str_views(v@) == seq![a@, b@],
{
    let v = vec![a.to_owned(), b.to_owned()];
    assert(str_views(v@) =~= seq![a@, b@]);
    v
}

fn strings3(a: &str, b: &str, c: &str) -> (v: Vec<String>)
    ensures
        str_views(v@) == seq![a@, b@, c@],
{
    let v = vec![a.to_owned(), b.to_owned(), c.to_owned()];
    assert(str_views(v@) =~= seq![a@, b@, c@]);
    v
}

/// The agents engrym knows, in menu order.
pub fn known_agents() -> (r: Vec<KnownAgent>)
    ensures
        agent_rows(r@) == agent_table(),
{
    let mut v: Vec<KnownAgent> = Vec::new();
    v.push(agent("OpenAI Codex", "codex", strings1("{prompt}"),
        Some(SkillLoc::Home(".codex/skills".to_owned())), None, Some(".codex/AGENTS.md")));
    v.push(agent("Gemini CLI", "gemini", strings2("-i", "{prompt}"), None, None, None));
    v.push(agent("Aider", "aider", strings2("--message", "{prompt}"), None, None, None));
    v.push(agent("opencode", "opencode", strings2("run", "{prompt}"),
        Some(SkillLoc::Project(".opencode/skills".to_owned())),
        Some(SkillLoc::Home(".config/opencode/skills".to_owned())), None));
    v.push(agent("Amp", "amp", strings1("{prompt}"), None, None, None));
    v.push(agent("Goose", "goose", strings3("run", "-t", "{prompt}"), None, None, None));
    assert(agent_rows(v@) =~= agent_table());
    v
}

/// The location an agent row reads skills from in the given mode.
pub open spec fn row_skills_for(a: AgentRow, local: bool) -> Option<(bool, Seq<char>)> {
    if local && a.4 is Some {
        a.4
    } else {
        a.3
    }
}

impl KnownAgent {
    /// Where this agent reads skills in the given mode. Local mode prefers a
    /// repo-free location and falls back to the in-repo one.
    pub fn skills_for(&self, local: bool) -> (r: Option<&SkillLoc>)
        ensures
            match r {
                Some(l) => row_skills_for(self@, local) == Some(l@),
                None => row_skills_for(self@, local) is None,
            },
    {
        if local {
            match &self.skills_local {
                Some(l) => Some(l),
                None => self.skills.as_ref(),
            }
        } else {
            self.skills.as_ref()
        }
    }

    /// Whether engrym can install skills for this agent in some mode.
    pub fn has_skills(&self) -> (b: bool)
        ensures
            b == (self@.3 is Some || self@.4 is Some),
    {
        self.skills.is_some() || self.skills_local.is_some()
    }

    /// Whether engrym knows this agent's global memory file.
    pub fn has_memory(&self) -> (b: bool)
        ensures
            b == self@.5 is Some,
    {
        self.memory.is_some()
    }

    /// The agent's global memory file under `home` (`None` if unknown or `home`
    /// is unknown).
    pub fn memory_file(&self, home: Option<&str>) -> (r: Option<String>)
        ensures
            match (self@.5, home) {
                (Some(m), Some(h)) => r matches Some(f) && f@ == join_path(h@, m),
                _ => r is None,
            },
    {
        match (&self.memory, home) {
            (Some(m), Some(h)) => Some(join_path_exec(h, m.as_str())),
            _ => None,
        }
    }
}


/// The files a skill installation writes under `base`, in install order:
/// `<base>/<name>/SKILL.md` for each skill.
pub fn skill_files(base: &str) -> (r: Vec<String>)
    ensures
        str_views(r@) == seq![
            join_path(join_path(base@, BOOTSTRAP_SKILL@), "SKILL.md"@),
            join_path(join_path(base@, WORKING_SKILL@), "SKILL.md"@),
        ],
{
    let d1 = join_path_exec(base, BOOTSTRAP_SKILL);
    let d2 = join_path_exec(base, WORKING_SKILL);
    let v = vec![join_path_exec(d1.as_str(), "SKILL.md"), join_path_exec(d2.as_str(), "SKILL.md")];
    assert(str_views(v@) =~= seq![
        join_path(join_path(base@, BOOTSTRAP_SKILL@), "SKILL.md"@),
        join_path(join_path(base@, WORKING_SKILL@), "SKILL.md"@),
    ]);
    v
}

/// The skill directories an uninstall removes under `base`.
pub fn skill_dirs(base: &str) -> (r: Vec<String>)
    ensures
        str_views(r@) == seq![join_path(base@, BOOTSTRAP_SKILL@), join_path(base@, WORKING_SKILL@)],
{
    let v = vec![join_path_exec(base, BOOTSTRAP_SKILL), join_path_exec(base, WORKING_SKILL)];
    assert(str_views(v@) =~= seq![join_path(base@, BOOTSTRAP_SKILL@), join_path(base@, WORKING_SKILL@)]);
    v
}

// ---------------------------------------------------------------------------
// Choosing an agent
// ---------------------------------------------------------------------------

/// A name that means "no agent": `none`, `skip` or nothing, in any case.
pub open spec fn is_skip_name(name: Seq<char>) -> bool {
    let l = unicode_lowercase(name);
    l == "none"@ || l == "skip"@ || l.len() == 0
}

fn is_skip_name_exec(name: &str) -> (b: bool)
    ensures
        b == is_skip_name(name@),
{
    let l = to_lowercase(name);
    let lc = chars_of(l.as_str());
    let none = chars_of("none");
    let skip = chars_of("skip");
    seq_eq(&lc, &none) || seq_eq(&lc, &skip) || lc.len() == 0
}

/// ASCII-case-insensitive equality (what `eq_ignore_ascii_case` tests).
pub open spec fn eq_ignore_case(a: Seq<char>, b: Seq<char>) -> bool {
    lower(a) == lower(b)
}

/// The first agent whose binary matches `name`, ignoring ASCII case.
pub open spec fn agent_index(rows: Seq<AgentRow>, name: Seq<char>) -> Option<int>
    decreases rows.len(),
{
    if rows.len() == 0 {
        None
    } else if eq_ignore_case(rows[0].1, name) {
        Some(0)
    } else {
        match agent_index(rows.drop_first(), name) {
            Some(i) => Some(i + 1),
            None => None,
        }
    }
}

proof fn lemma_agent_index(rows: Seq<AgentRow>, name: Seq<char>)
    ensures
        match agent_index(rows, name) {
            Some(i) => 0 <= i < rows.len() && eq_ignore_case(rows[i].1, name) && forall|j: int|
                0 <= j < i ==> !eq_ignore_case(#[trigger] rows[j].1, name),
            None => forall|j: int| 0 <= j < rows.len() ==> !eq_ignore_case(#[trigger] rows[j].1, name),
        },
    decreases rows.len(),
{
    if rows.len() > 0 && !eq_ignore_case(rows[0].1, name) {
        lemma_agent_index(rows.drop_first(), name);
        assert forall|j: int| 1 <= j < rows.len() implies rows[j].1 == rows.drop_first()[j - 1].1 by {}
    }
}

/// The index of the first agent in `agents` whose binary is `name`, ignoring
/// ASCII case.
pub fn find_agent(agents: &Vec<KnownAgent>, name: &str) -> (r: Option<usize>)
    ensures
        match r {
            Some(i) => agent_index(agent_rows(agents@), name@) == Some(i as int),
            None => agent_index(agent_rows(agents@), name@) is None,
        },
{
    let n = chars_of(name);
    let nl = lower_exec(&n);
    let ghost rows = agent_rows(agents@);
    proof {
        lemma_agent_index(rows, name@);
    }
    let mut i: usize = 0;
    while i < agents.len()
        invariant
            i <= agents@.len(),
            rows == agent_rows(agents@),
            nl@ == lower(name@),
            forall|j: int| 0 <= j < i ==> !eq_ignore_case(#[trigger] rows[j].1, name@),
        decreases agents@.len() - i,
    {
        let b = chars_of(agents[i].bin.as_str());
        let bl = lower_exec(&b);
        if seq_eq(&bl, &nl) {
            proof {
                assert(rows[i as int].1 == agents@[i as int].bin@);
                lemma_agent_index(rows, name@);
                if let Some(k) = agent_index(rows, name@) {
                    if k < i {
                        assert(!eq_ignore_case(rows[k].1, name@));
                    }
                }
            }
            return Some(i);
        }
        assert(rows[i as int].1 == agents@[i as int].bin@);
        i += 1;
    }
    proof {
        lemma_agent_index(rows, name@);
    }
    None
}

/// The bins of the agents that can take skills.
pub open spec fn skill_bins(rows: Seq<AgentRow>) -> Seq<Seq<char>>
    decreases rows.len(),
{
    if rows.len() == 0 {
        Seq::empty()
    } else if rows.last().3 is Some || rows.last().4 is Some {
        skill_bins(rows.drop_last()).push(rows.last().1)
    } else {
        skill_bins(rows.drop_last())
    }
}

/// The bins of the agents whose memory file engrym knows.
pub open spec fn memory_bins(rows: Seq<AgentRow>) -> Seq<Seq<char>>
    decreases rows.len(),
{
    if rows.len() == 0 {
        Seq::empty()
    } else if rows.last().5 is Some {
        memory_bins(rows.drop_last()).push(rows.last().1)
    } else {
        memory_bins(rows.drop_last())
    }
}

/// The binaries of the skill-capable agents, comma-separated.
pub fn skill_capable_bins() -> (r: String)
    ensures
        r@ == join(skill_bins(agent_table()), ", "@),
{
    let agents = known_agents();
    let mut bins: Vec<String> = Vec::new();
    let mut i: usize = 0;
    while i < agents.len()
        invariant
            i <= agents@.len(),
            agent_rows(agents@) == agent_table(),
            str_views(bins@) == skill_bins(agent_rows(agents@).take(i as int)),
        decreases agents@.len() - i,
    {
        let ghost t = agent_rows(agents@).take(i + 1);
        proof {
            assert(t.drop_last() =~= agent_rows(agents@).take(i as int));
            assert(t.last() == agents@[i as int]@);
        }
        if agents[i].has_skills() {
            bins.push(agents[i].bin.clone());
            proof {
                assert(str_views(bins@) =~= skill_bins(t.drop_last()).push(t.last().1));
            }
        }
        i += 1;
    }
    proof {
        assert(agent_rows(agents@).take(agents@.len() as int) =~= agent_rows(agents@));
    }
    join_exec(&bins, ", ")
}

/// The binaries of the memory-capable agents, comma-separated.
pub fn memory_capable_bins() -> (r: String)
    ensures
        r@ == join(memory_bins(agent_table()), ", "@),
{
    let agents = known_agents();
    let mut bins: Vec<String> = Vec::new();
    let mut i: usize = 0;
    while i < agents.len()
        invariant
            i <= agents@.len(),
            agent_rows(agents@) == agent_table(),
            str_views(bins@) == memory_bins(agent_rows(agents@).take(i as int)),
        decreases agents@.len() - i,
    {
        let ghost t = agent_rows(agents@).take(i + 1);
        proof {
            assert(t.drop_last() =~= agent_rows(agents@).take(i as int));
            assert(t.last() == agents@[i as int]@);
        }
        if agents[i].has_memory() {
            bins.push(agents[i].bin.clone());
            proof {
                assert(str_views(bins@) =~= memory_bins(t.drop_last()).push(t.last().1));
            }
        }
        i += 1;
    }
    proof {
        assert(agent_rows(agents@).take(agents@.len() as int) =~= agent_rows(agents@));
    }
    join_exec(&bins, ", ")
}

/// The resolved agent decision for `init`.
pub enum Choice {
    Known(KnownAgent),
    Custom(String),
    Skip,
}

impl Choice {
    /// `bin` for a known agent, `custom`, or `none`.
    pub fn describe(&self) -> (r: String)
        ensures
            match self {
                Choice::Known(a) => r@ == a.bin@,
                Choice::Custom(_) => r@ == "custom"@,
                Choice::Skip => r@ == "none"@,
            },
    {
        match self {
            Choice::Known(a) => a.bin.clone(),
            Choice::Custom(_) => "custom".to_owned(),
            Choice::Skip => "none".to_owned(),
        }
    }
}

/// The agent at `i` of the table, by value.
fn agent_at(i: usize) -> (a: KnownAgent)
    requires
        i < agent_table().len(),
    ensures
        a@ == agent_table()[i as int],
{
    let mut all = known_agents();
    assert(agent_rows(all@)[i as int] == all@[i as int]@);
    all.remove(i)
}

/// The agent decision from `--agent-cmd` (`cmd`) and `--agent` (`name`); `None`
/// when neither is given and the choice is left to the user.
pub fn resolve_choice(cmd: Option<&str>, name: Option<&str>) -> (r: Option<Choice>)
    ensures
        match (cmd, name) {
            (Some(c), _) => r matches Some(Choice::Custom(s)) && s@ == c@,
            (None, Some(n)) => {
                let t = trim(n@);
                if is_skip_name(t) {
                    r matches Some(Choice::Skip)
                } else {
                    match agent_index(agent_table(), t) {
                        Some(i) => r matches Some(Choice::Known(a)) && a@ == agent_table()[i],
                        None => r matches Some(Choice::Custom(s)) && s@ == t,
                    }
                }
            },
            (None, None) => r is None,
        },
{
    if let Some(c) = cmd {
        return Some(Choice::Custom(c.to_owned()));
    }
    match name {
        Some(n) => {
            let t = trimmed(n);
            if is_skip_name_exec(t.as_str()) {
                return Some(Choice::Skip);
            }
            let agents = known_agents();
            match find_agent(&agents, t.as_str()) {
                Some(i) => {
                    proof {
                        lemma_agent_index(agent_table(), t@);
                    }
                    Some(Choice::Known(agent_at(i)))
                },
                None => Some(Choice::Custom(t)),
            }
        },
        None => None,
    }
}

/// `s` without leading and trailing whitespace.
pub fn trimmed(s: &str) -> (r: String)
    ensures
        r@ == trim(s@),
{
    let cs = chars_of(s);
    let (a, b) = trim_bounds(&cs, 0, cs.len());
    proof {
        assert(cs@.subrange(0, cs@.len() as int) =~= cs@);
    }
    let v = slice_of(&cs, a, b);
    string_of(&v)
}

/// Why a named agent cannot be used.
pub enum AgentError {
    /// The agent has no skill directory.
    NoSkillDir { label: String },
    /// No known agent has that binary; `capable` lists the skill-capable ones.
    UnknownSkillAgent { name: String, capable: String },
    /// The agent's global memory file is unknown.
    NoMemoryFile { label: String },
    /// No known agent has that binary; `capable` lists the memory-capable ones.
    UnknownMemoryAgent { name: String, capable: String },
}

/// What an agent error says.
pub open spec fn agent_msg(e: AgentError) -> Seq<char> {
    match e {
        AgentError::NoSkillDir { label } => label@ + " has no engrym skill directory (it uses the CLI directly)"@,
        AgentError::UnknownSkillAgent { name, capable } => "unknown agent `"@ + name@ + "` (skill-capable: "@
            + capable@ + ")"@,
        AgentError::NoMemoryFile { label } => "engrym doesn't know "@ + label@ + "'s global memory file"@,
        AgentError::UnknownMemoryAgent { name, capable } => "unknown agent `"@ + name@ + "` (memory-capable: "@
            + capable@ + ")"@,
    }
}

impl AgentError {
    /// The error as the user reads it.
    pub fn message(&self) -> (r: String)
        ensures
            r@ == agent_msg(*self),
    {
        let mut out: Vec<char> = Vec::new();
        match self {
            AgentError::NoSkillDir { label } => {
                push_str(&mut out, label.as_str());
                push_str(&mut out, " has no engrym skill directory (it uses the CLI directly)");
            },
            AgentError::UnknownSkillAgent { name, capable } => {
                push_str(&mut out, "unknown agent `");
                push_str(&mut out, name.as_str());
                push_str(&mut out, "` (skill-capable: ");
                push_str(&mut out, capable.as_str());
                push_str(&mut out, ")");
            },
            AgentError::NoMemoryFile { label } => {
                push_str(&mut out, "engrym doesn't know ");
                push_str(&mut out, label.as_str());
                push_str(&mut out, "'s global memory file");
            },
            AgentError::UnknownMemoryAgent { name, capable } => {
                push_str(&mut out, "unknown agent `");
                push_str(&mut out, name.as_str());
                push_str(&mut out, "` (memory-capable: ");
                push_str(&mut out, capable.as_str());
                push_str(&mut out, ")");
            },
        }
        string_of(&out)
    }
}

/// The skill-capable agent named by `--agent <name>`: `Ok(None)` for a "no
/// agent" name, an error for an unknown agent or one without skills.
pub fn resolve_skill_agent(name: &str) -> (r: Result<Option<KnownAgent>, AgentError>)
    ensures
        ({
            let t = trim(name@);
            if is_skip_name(t) {
                r matches Ok(None)
            } else {
                match agent_index(agent_table(), t) {
                    Some(i) => if agent_table()[i].3 is Some || agent_table()[i].4 is Some {
                        r matches Ok(Some(a)) && a@ == agent_table()[i]
                    } else {
                        r matches Err(AgentError::NoSkillDir { label }) && label@ == agent_table()[i].0
                    },
                    None => r matches Err(AgentError::UnknownSkillAgent { name: n, capable })
                        && n@ == t && capable@ == join(skill_bins(agent_table()), ", "@),
                }
            }
        }),
{
    let t = trimmed(name);
    if is_skip_name_exec(t.as_str()) {
        return Ok(None);
    }
    let agents = known_agents();
    match find_agent(&agents, t.as_str()) {
        Some(i) => {
            proof {
                lemma_agent_index(agent_table(), t@);
                assert(agent_rows(agents@)[i as int] == agents@[i as int]@);
            }
            if agents[i].has_skills() {
                Ok(Some(agent_at(i)))
            } else {
                Err(AgentError::NoSkillDir { label: agents[i].label.clone() })
            }
        },
        None => Err(AgentError::UnknownSkillAgent { name: t, capable: skill_capable_bins() }),
    }
}

/// The memory-capable agent named by `--agent <name>`, mirroring
/// [`resolve_skill_agent`].
pub fn resolve_memory_agent(name: &str) -> (r: Result<Option<KnownAgent>, AgentError>)
    ensures
        ({
            let t = trim(name@);
            if is_skip_name(t) {
                r matches Ok(None)
            } else {
                match agent_index(agent_table(), t) {
                    Some(i) => if agent_table()[i].5 is Some {
                        r matches Ok(Some(a)) && a@ == agent_table()[i]
                    } else {
                        r matches Err(AgentError::NoMemoryFile { label }) && label@ == agent_table()[i].0
                    },
                    None => r matches Err(AgentError::UnknownMemoryAgent { name: n, capable })
                        && n@ == t && capable@ == join(memory_bins(agent_table()), ", "@),
                }
            }
        }),
{
    let t = trimmed(name);
    if is_skip_name_exec(t.as_str()) {
        return Ok(None);
    }
    let agents = known_agents();
    match find_agent(&agents, t.as_str()) {
        Some(i) => {
            proof {
                lemma_agent_index(agent_table(), t@);
                assert(agent_rows(agents@)[i as int] == agents@[i as int]@);
            }
            if agents[i].has_memory() {
                Ok(Some(agent_at(i)))
            } else {
                Err(AgentError::NoMemoryFile { label: agents[i].label.clone() })
            }
        },
        None => Err(AgentError::UnknownMemoryAgent { name: t, capable: memory_capable_bins() }),
    }
}


/// A file without a managed block stays without one once its trailing blanks
/// are normalized.
proof fn lemma_normalized_no_block(content: Seq<char>)
    requires
        find(content, MEM_BEGIN@) is None,
    ensures
        find(normalized_trailing(content), MEM_BEGIN@) is None,
{
    lemma_marker_facts();
    lemma_find(content, MEM_BEGIN@);
    let t = trim_end(content);
    lemma_trim_end_len(content);
    let n = normalized_trailing(content);
    assert forall|j: int| !occurs_at(n, MEM_BEGIN@, j) by {
        if occurs_at(n, MEM_BEGIN@, j) {
            let a = t.push('\n');
            assert(n == a);
            assert(a + Seq::<char>::empty() =~= a);
            lemma_occ_before_newline(a, Seq::<char>::empty(), MEM_BEGIN@, j);
            assert(content.subrange(j, j + MEM_BEGIN@.len()) =~= a.subrange(j, j + MEM_BEGIN@.len()));
            assert(occurs_at(content, MEM_BEGIN@, j));
        }
    }
    lemma_find(n, MEM_BEGIN@);
}

/// `uninstall memory` reverts `install memory` on a memory file that had no
/// managed block: the file comes back as it was, up to trailing blanks, and
/// uninstalling again changes nothing.
pub proof fn lemma_remove_reverts_add(content: Seq<char>, repo: Seq<char>)
    requires
        valid_memory_path(repo),
        find(content, MEM_BEGIN@) is None,
    ensures
        added_memory(content, repo).1,
        removed_memory(added_memory(content, repo).0, repo) == (normalized_trailing(content), true),
        removed_memory(normalized_trailing(content), repo) == (normalized_trailing(content), false),
{
    lemma_marker_facts();
    lemma_find(content, MEM_BEGIN@);
    let ps0 = memory_paths(content);
    assert(ps0 =~= Seq::<Seq<char>>::empty());
    let one = seq![repo];
    assert(one.drop_last() =~= Seq::<Seq<char>>::empty());
    assert(ps0.push(repo) =~= one);
    assert(one.last() == repo);
    assert(sort_dedup(one.drop_last()) == sort_dedup(Seq::<Seq<char>>::empty()));
    assert(sort_dedup(Seq::<Seq<char>>::empty()) =~= Seq::<Seq<char>>::empty());
    assert(sort_dedup(one) == insert_sorted(Seq::<Seq<char>>::empty(), repo));
    assert(sort_dedup(one) =~= one);
    let block = memory_block(one);
    assert(block.len() > 0);
    assert(block.last() == '>') by {
        assert(block.last() == MEM_END@.last());
    }
    let t = trim_end(content);
    lemma_trim_end_len(content);
    lemma_blank_trim(content);
    let w = seq!['\n'];
    let x = if trim(content).len() == 0 { Seq::<char>::empty() } else { t + nn() };
    let c1 = added_memory(content, repo).0;
    assert(c1 == rendered_memory(content, one));
    if trim(content).len() == 0 {
        assert(c1 =~= x + block + w);
    } else {
        assert forall|j: int| !occurs_at(x, MEM_BEGIN@, j) by {
            if occurs_at(x, MEM_BEGIN@, j) {
                let tn = t + seq!['\n'];
                assert(x =~= tn + seq!['\n']);
                lemma_occ_before_newline(tn, seq!['\n'], MEM_BEGIN@, j);
                assert(t.subrange(j, j + MEM_BEGIN@.len()) =~= tn.subrange(j, j + MEM_BEGIN@.len()));
                assert(t =~= content.take(t.len() as int));
                assert(content.subrange(j, j + MEM_BEGIN@.len()) =~= t.subrange(j, j + MEM_BEGIN@.len()));
                assert(occurs_at(content, MEM_BEGIN@, j));
            }
        }
        let e: Seq<char> = Seq::empty();
        lemma_trim_end_concat(x + block, e);
        assert(x + block + e =~= x + block);
        assert(trim_end(e) =~= e);
        assert(c1 =~= x + block + w);
    }
    assert(forall|i: int| 0 <= i < one.len() ==> valid_memory_path(#[trigger] one[i]));
    lemma_read_back(x, one, w);
    assert(memory_paths(c1) == one);
    assert(without(one, repo) =~= Seq::<Seq<char>>::empty()) by {
        assert(one.last() == repo);
        assert(without(one.drop_last(), repo) == without(Seq::<Seq<char>>::empty(), repo));
        assert(without(Seq::<Seq<char>>::empty(), repo) =~= Seq::<Seq<char>>::empty());
    }
    let start = x.len() as int;
    assert(block_end(c1, start) == start + block.len());
    assert(c1.skip(start + block.len()) =~= w);
    assert(trim_start_char(w, '\n') =~= Seq::<char>::empty()) by {
        assert(w.drop_first() =~= Seq::<char>::empty());
        assert(trim_start_char(w.drop_first(), '\n') == trim_start_char(Seq::<char>::empty(), '\n'));
        assert(trim_start_char(Seq::<char>::empty(), '\n') =~= Seq::<char>::empty());
    }
    assert(c1.take(start) =~= x);
    assert(memory_block(Seq::<Seq<char>>::empty()) =~= Seq::<char>::empty());
    if trim(content).len() == 0 {
        assert(trim_end(x) =~= Seq::<char>::empty());
        assert(rendered_memory(c1, Seq::<Seq<char>>::empty()) =~= normalized_trailing(Seq::<char>::empty()));
        assert(normalized_trailing(content) =~= Seq::<char>::empty());
    } else {
        lemma_trim_end_concat(t, nn());
        assert(trim_end(nn()) =~= Seq::<char>::empty()) by {
            let one_nl = seq!['\n'];
            assert(is_space('\n'));
            assert(nn().drop_last() =~= one_nl);
            assert(one_nl.drop_last() =~= Seq::<char>::empty());
            assert(trim_end(one_nl.drop_last()) == trim_end(Seq::<char>::empty()));
            assert(trim_end(Seq::<char>::empty()) =~= Seq::<char>::empty());
            assert(trim_end(one_nl) == trim_end(one_nl.drop_last()));
            assert(trim_end(nn()) == trim_end(nn().drop_last()));
        }
        assert(trim_end(x) =~= t);
        let out = t + nn() + Seq::<char>::empty() + Seq::<char>::empty();
        assert(out =~= t + nn());
        assert(trim_end(out) =~= t);
        assert(rendered_memory(c1, Seq::<Seq<char>>::empty()) == normalized_trailing(out));
        assert(normalized_trailing(out) =~= t.push('\n'));
    }
    lemma_normalized_no_block(content);
    let n = normalized_trailing(content);
    assert(memory_paths(n) =~= Seq::<Seq<char>>::empty());
    assert(without(memory_paths(n), repo) =~= Seq::<Seq<char>>::empty());
}


/// Dropping the managed block restores the file it was added to: rendering
/// any paths into a file without a block, then rendering none, gives the file
/// back, when it is empty or ends with exactly one newline.
pub proof fn lemma_render_then_clear(content: Seq<char>, ps: Seq<Seq<char>>)
    requires
        find(content, MEM_BEGIN@) is None,
        content.len() == 0 || (trim(content).len() > 0 && content == trim_end(content).push('\n')),
        forall|i: int| 0 <= i < ps.len() ==> !contains_seq(#[trigger] ps[i], MEM_END@),
    ensures
        rendered_memory(rendered_memory(content, ps), Seq::empty()) == content,
{
    lemma_marker_facts();
    lemma_find(content, MEM_BEGIN@);
    let none = Seq::<Seq<char>>::empty();
    assert(memory_block(none) =~= Seq::<char>::empty());
    if ps.len() == 0 {
        assert(ps =~= none);
        assert(rendered_memory(content, ps) == content);
    } else {
        let block = memory_block(ps);
        assert(block.last() == '>') by {
            assert(block.last() == MEM_END@.last());
        }
        let t = trim_end(content);
        lemma_trim_end_len(content);
        lemma_blank_trim(content);
        let w = seq!['\n'];
        let x = if trim(content).len() == 0 { Seq::<char>::empty() } else { t + nn() };
        let c1 = rendered_memory(content, ps);
        if trim(content).len() == 0 {
            assert(c1 =~= x + block + w);
        } else {
            assert forall|j: int| !occurs_at(x, MEM_BEGIN@, j) by {
                if occurs_at(x, MEM_BEGIN@, j) {
                    let tn = t + seq!['\n'];
                    assert(x =~= tn + seq!['\n']);
                    lemma_occ_before_newline(tn, seq!['\n'], MEM_BEGIN@, j);
                    assert(t.subrange(j, j + MEM_BEGIN@.len()) =~= tn.subrange(j, j + MEM_BEGIN@.len()));
                    assert(t =~= content.take(t.len() as int));
                    assert(content.subrange(j, j + MEM_BEGIN@.len()) =~= t.subrange(j, j + MEM_BEGIN@.len()));
                    assert(occurs_at(content, MEM_BEGIN@, j));
                }
            }
            let e: Seq<char> = Seq::empty();
            lemma_trim_end_concat(x + block, e);
            assert(x + block + e =~= x + block);
            assert(trim_end(e) =~= e);
            assert(c1 =~= x + block + w);
        }
        lemma_block_markers(x, ps, w);
        let start = x.len() as int;
        assert(block_end(c1, start) == start + block.len());
        assert(c1.skip(start + block.len()) =~= w);
        assert(trim_start_char(w, '\n') =~= Seq::<char>::empty()) by {
            assert(w.drop_first() =~= Seq::<char>::empty());
            assert(trim_start_char(w.drop_first(), '\n') == trim_start_char(Seq::<char>::empty(), '\n'));
            assert(trim_start_char(Seq::<char>::empty(), '\n') =~= Seq::<char>::empty());
        }
        assert(c1.take(start) =~= x);
        if trim(content).len() == 0 {
            assert(content.len() == 0);
            assert(trim_end(x) =~= Seq::<char>::empty());
            assert(rendered_memory(c1, none) =~= normalized_trailing(Seq::<char>::empty()));
        } else {
            lemma_trim_end_concat(t, nn());
            assert(trim_end(nn()) =~= Seq::<char>::empty()) by {
                let one_nl = seq!['\n'];
                assert(is_space('\n'));
                assert(nn().drop_last() =~= one_nl);
                assert(one_nl.drop_last() =~= Seq::<char>::empty());
                assert(trim_end(one_nl.drop_last()) == trim_end(Seq::<char>::empty()));
                assert(trim_end(Seq::<char>::empty()) =~= Seq::<char>::empty());
                assert(trim_end(one_nl) == trim_end(one_nl.drop_last()));
                assert(trim_end(nn()) == trim_end(nn().drop_last()));
            }
            assert(trim_end(x) =~= t);
            let out = t + nn() + Seq::<char>::empty() + Seq::<char>::empty();
            assert(out =~= t + nn());
            assert(trim_end(out) =~= t);
            assert(rendered_memory(c1, none) == normalized_trailing(out));
            assert(normalized_trailing(out) =~= t.push('\n'));
        }
    }
}


/// The begin marker occurs at most once in `content`.
pub open spec fn begin_at_most_once(content: Seq<char>) -> bool {
    forall|i: int, j: int| occurs_at(content, MEM_BEGIN@, i) && occurs_at(content, MEM_BEGIN@, j) ==> i == j
}

/// Clearing the block of a file with at most one block leaves none to read.
proof fn lemma_clear_reads_empty(content: Seq<char>)
    requires
        begin_at_most_once(content),
    ensures
        memory_paths(rendered_memory(content, Seq::empty())) == Seq::<Seq<char>>::empty(),
{
    lemma_marker_facts();
    lemma_find(content, MEM_BEGIN@);
    let none = Seq::<Seq<char>>::empty();
    assert(memory_block(none) =~= Seq::<char>::empty());
    let n = rendered_memory(content, none);
    if let Some(start) = find(content, MEM_BEGIN@) {
        let head = trim_end(content.take(start));
        let be = block_end(content, start);
        let r = content.skip(be);
        let tail = trim_start_char(r, '\n');
        let x = if head.len() > 0 { head + nn() } else { Seq::<char>::empty() };
        let out = x + tail;
        assert(n == normalized_trailing(out)) by {
            assert(x + Seq::<char>::empty() + tail =~= out);
        }
        lemma_trim_end_len(content.take(start));
        lemma_trim_end_len(out);
        lemma_trim_start_char_suffix(r, '\n');
        lemma_find(content.skip(start), MEM_END@);
        assert(start < be <= content.len()) by {
            match find(content.skip(start), MEM_END@) {
                Some(e) => {},
                None => {},
            }
        }
        assert forall|j: int| !occurs_at(n, MEM_BEGIN@, j) by {
            if occurs_at(n, MEM_BEGIN@, j) {
                let te = trim_end(out);
                assert(te.len() > 0);
                assert(n == te.push('\n'));
                assert(n + Seq::<char>::empty() =~= n);
                lemma_occ_before_newline(n, Seq::<char>::empty(), MEM_BEGIN@, j);
                assert(out.subrange(j, j + MEM_BEGIN@.len()) =~= n.subrange(j, j + MEM_BEGIN@.len()));
                assert(occurs_at(out, MEM_BEGIN@, j));
                if j < x.len() {
                    let hn = head + seq!['\n'];
                    assert(x =~= hn + seq!['\n']);
                    lemma_occ_before_newline(x, tail, MEM_BEGIN@, j);
                    lemma_occ_before_newline(hn, seq!['\n'], MEM_BEGIN@, j);
                    assert(content.subrange(j, j + MEM_BEGIN@.len()) =~= hn.subrange(j, j + MEM_BEGIN@.len()));
                    assert(occurs_at(content, MEM_BEGIN@, j));
                } else {
                    lemma_occ_right(x, tail, MEM_BEGIN@, j);
                    let q = be + (r.len() - tail.len()) + (j - x.len());
                    assert(content.subrange(q, q + MEM_BEGIN@.len())
                        =~= tail.subrange(j - x.len(), j - x.len() + MEM_BEGIN@.len()));
                    assert(occurs_at(content, MEM_BEGIN@, q));
                    assert(occurs_at(content, MEM_BEGIN@, start));
                }
            }
        }
        lemma_find(n, MEM_BEGIN@);
    } else {
        assert(n == content);
    }
}

} // verus!
