//! Validating a knowledge base against the frontmatter contract.
//!
//! Hard structural problems (missing required fields, a bad altitude,
//! duplicate ids, unknown relation types) are errors; dangling targets, a
//! topic nobody else uses, and an empty body are warnings, which fail a run
//! only when it is strict.

use vstd::prelude::*;
use crate::model::{edge_types, edge_type_list, is_edge_type, opt_str, MAX_ALTITUDE};
use crate::parse::{contains_str, ParsedDoc};
use crate::author::{altitude_ok, self_id};
use crate::text::{
    chars_of, join, join_exec, push_str, split_char, split_char_exec, str_views, string_of, trim,
    trim_bounds, views, int_str, i64_to_string,
};

verus! {

/// How serious an issue is.
#[derive(Clone, Copy, PartialEq, Eq, Structural)]
pub enum Severity {
    Error,
    Warn,
}

/// One problem found in a file.
pub struct Issue {
    pub severity: Severity,
    pub file: String,
    pub message: String,
}

impl View for Issue {
    type V = (Severity, Seq<char>, Seq<char>);

    open spec fn view(&self) -> (Severity, Seq<char>, Seq<char>) {
        (self.severity, self.file@, self.message@)
    }
}

/// The views of a list of issues.
pub open spec fn issue_views(v: Seq<Issue>) -> Seq<(Severity, Seq<char>, Seq<char>)> {
    v.map_values(|i: Issue| i@)
}

// ---------------------------------------------------------------------------
// Topic prefixes
// ---------------------------------------------------------------------------

/// The non-empty pieces of `parts`.
pub open spec fn non_empty(parts: Seq<Seq<char>>) -> Seq<Seq<char>>
    decreases parts.len(),
{
    if parts.len() == 0 {
        Seq::empty()
    } else if parts.last().len() > 0 {
        non_empty(parts.drop_last()).push(parts.last())
    } else {
        non_empty(parts.drop_last())
    }
}

/// `a/b/c` gives `a`, `a/b`, `a/b/c`: each leading run of the topic's
/// segments, joined with `/`.
pub open spec fn ancestor_prefixes_spec(topic: Seq<char>) -> Seq<Seq<char>> {
    let segs = non_empty(split_char(topic, '/'));
    Seq::new(segs.len(), |k: int| join(segs.take(k + 1), "/"@))
}

/// The ancestor prefixes of a topic path, shortest first.
pub fn ancestor_prefixes(topic: &str) -> (r: Vec<String>)
    ensures
        str_views(r@) == ancestor_prefixes_spec(topic@),
{
    let cs = chars_of(topic);
    let parts = split_char_exec(&cs, '/');
    let ghost pv = views(parts@);
    let mut segs: Vec<String> = Vec::new();
    let mut i: usize = 0;
    proof {
        assert(pv.take(0) =~= Seq::<Seq<char>>::empty());
        assert(str_views(segs@) =~= Seq::<Seq<char>>::empty());
    }
    while i < parts.len()
        invariant
            i <= parts@.len(),
            pv == views(parts@),
            str_views(segs@) == non_empty(pv.take(i as int)),
        decreases parts@.len() - i,
    {
        proof {
            assert(pv.take(i + 1).drop_last() =~= pv.take(i as int));
            assert(pv.take(i + 1).last() == parts@[i as int]@);
        }
        if parts[i].len() > 0 {
            let ghost before = str_views(segs@);
            segs.push(string_of(&parts[i]));
            proof {
                assert(str_views(segs@) =~= before.push(parts@[i as int]@));
            }
        }
        i += 1;
    }
    proof {
        assert(pv.take(i as int) =~= pv);
    }
    let ghost sv = str_views(segs@);
    let mut out: Vec<String> = Vec::new();
    let mut acc: Vec<char> = Vec::new();
    let mut k: usize = 0;
    proof {
        assert(sv.take(0) =~= Seq::<Seq<char>>::empty());
    }
    while k < segs.len()
        invariant
            k <= segs@.len(),
            sv == str_views(segs@),
            acc@ == join(sv.take(k as int), "/"@),
            out@.len() == k,
            forall|j: int| 0 <= j < k ==> #[trigger] out@[j]@ == join(sv.take(j + 1), "/"@),
        decreases segs@.len() - k,
    {
        if k > 0 {
            acc.push('/');
        }
        push_str(&mut acc, segs[k].as_str());
        proof {
            reveal_strlit("/");
            let t = sv.take(k + 1);
            assert(t.drop_last() =~= sv.take(k as int));
            assert(t.last() == segs@[k as int]@);
            if k == 0 {
                assert(t.len() == 1);
                assert(acc@ =~= t[0]);
            } else {
                assert(acc@ =~= join(sv.take(k as int), "/"@) + "/"@ + t.last());
            }
        }
        out.push(string_of(&acc));
        k += 1;
    }
    proof {
        assert(str_views(out@) =~= ancestor_prefixes_spec(topic@));
    }
    out
}

// ---------------------------------------------------------------------------
// Validating one document
// ---------------------------------------------------------------------------

/// The ids the documents declare.
pub open spec fn declared_ids(docs: Seq<ParsedDoc>) -> Seq<Seq<char>>
    decreases docs.len(),
{
    if docs.len() == 0 {
        Seq::empty()
    } else {
        match docs.last().frontmatter.id {
            Some(id) => declared_ids(docs.drop_last()).push(id@),
            None => declared_ids(docs.drop_last()),
        }
    }
}

/// Whether a document with an id files something under prefix `p`.
pub open spec fn uses_prefix(d: ParsedDoc, p: Seq<char>) -> bool {
    &&& d.frontmatter.id is Some
    &&& exists|j: int| 0 <= j < d.frontmatter.topics@.len() && ancestor_prefixes_spec(
        #[trigger] d.frontmatter.topics@[j]@,
    ).contains(p)
}

/// A topic no other document shares any part of: every one of its prefixes
/// is used by no document but `id`.
pub open spec fn lonely_topic(docs: Seq<ParsedDoc>, id: Seq<char>, topic: Seq<char>) -> bool {
    forall|k: int, j: int|
        0 <= k < ancestor_prefixes_spec(topic).len() && 0 <= j < docs.len() && uses_prefix(
            #[trigger] docs[j],
            #[trigger] ancestor_prefixes_spec(topic)[k],
        ) ==> self_id(docs[j]) == id
}

/// The required-field issues of a frontmatter block.
pub open spec fn required_issues(d: ParsedDoc) -> Seq<(bool, Seq<char>)> {
    let fm = d.frontmatter;
    let a: Seq<(bool, Seq<char>)> = if fm.id is None { seq![(true, "missing required field `id`"@)] } else { Seq::empty() };
    let b: Seq<(bool, Seq<char>)> = if fm.title is None { seq![(true, "missing required field `title`"@)] } else { Seq::empty() };
    let c: Seq<(bool, Seq<char>)> = match fm.altitude {
        None => seq![(true, "missing required field `altitude`"@)],
        Some(x) => if !altitude_ok(x) {
            seq![(true, "altitude "@ + int_str(x as int) + " out of range 0..=3"@)]
        } else {
            Seq::empty()
        },
    };
    let t: Seq<(bool, Seq<char>)> = if fm.topics@.len() == 0 {
        seq![(true, "missing required field `topics` (need at least one)"@)]
    } else {
        Seq::empty()
    };
    a + b + c + t
}

/// The relation issues: unknown types are errors, dangling targets warnings.
pub open spec fn relation_issues(rels: Seq<(Seq<char>, Seq<char>)>, ids: Seq<Seq<char>>) -> Seq<(bool, Seq<char>)>
    decreases rels.len(),
{
    if rels.len() == 0 {
        Seq::empty()
    } else {
        let r = relation_issues(rels.drop_last(), ids);
        let (t, g) = rels.last();
        if !edge_types().contains(t) {
            r.push((true, "unknown relation type `"@ + t + "` (expected one of: "@ + join(edge_types(), ", "@) + ")"@))
        } else if !ids.contains(g) {
            r.push((false, "relation `"@ + t + "` → `"@ + g + "` targets a non-existent doc id"@))
        } else {
            r
        }
    }
}

/// The wikilink issues: targets that are no document's id.
pub open spec fn link_issues(links: Seq<Seq<char>>, ids: Seq<Seq<char>>) -> Seq<(bool, Seq<char>)>
    decreases links.len(),
{
    if links.len() == 0 {
        Seq::empty()
    } else {
        let r = link_issues(links.drop_last(), ids);
        if !ids.contains(links.last()) {
            r.push((false, "wikilink [["@ + links.last() + "]] targets a non-existent doc id"@))
        } else {
            r
        }
    }
}

/// The topic issues of a document with id `id`: topics nobody else shares.
pub open spec fn topic_issues(topics: Seq<Seq<char>>, docs: Seq<ParsedDoc>, id: Seq<char>) -> Seq<(bool, Seq<char>)>
    decreases topics.len(),
{
    if topics.len() == 0 {
        Seq::empty()
    } else {
        let r = topic_issues(topics.drop_last(), docs, id);
        if lonely_topic(docs, id, topics.last()) {
            r.push((false, "topic `"@ + topics.last() + "` is not shared by any other document (possible typo)"@))
        } else {
            r
        }
    }
}

/// Everything wrong with one document, in order, as (is error, message).
pub open spec fn doc_issues(d: ParsedDoc, docs: Seq<ParsedDoc>) -> Seq<(bool, Seq<char>)> {
    let ids = declared_ids(docs);
    let fm = d.frontmatter;
    let topics: Seq<(bool, Seq<char>)> = match fm.id {
        Some(id) => topic_issues(str_views(fm.topics@), docs, id@),
        None => Seq::empty(),
    };
    let body: Seq<(bool, Seq<char>)> = if trim(d.body@).len() == 0 {
        seq![(false, "body is empty (frontmatter only)"@)]
    } else {
        Seq::empty()
    };
    required_issues(d) + relation_issues(crate::model::relation_views(fm.relations@), ids) + link_issues(
        str_views(d.wikilinks@),
        ids,
    ) + topics + body
}

/// A message that cannot be a dangling-wikilink warning: it does not start
/// with `w`.
spec fn not_link_warning(m: Seq<char>) -> bool {
    m.len() > 0 && m[0] != 'w'
}

/// Every issue of `a + b` is an issue of `a` or of `b`.
proof fn lemma_no_link_warning_concat(a: Seq<(bool, Seq<char>)>, b: Seq<(bool, Seq<char>)>)
    requires
        forall|i: int| 0 <= i < a.len() ==> not_link_warning(#[trigger] a[i].1),
        forall|i: int| 0 <= i < b.len() ==> not_link_warning(#[trigger] b[i].1),
    ensures
        forall|i: int| 0 <= i < (a + b).len() ==> not_link_warning(#[trigger] (a + b)[i].1),
{
    assert forall|i: int| 0 <= i < (a + b).len() implies not_link_warning(#[trigger] (a + b)[i].1) by {
        if i < a.len() {
            assert((a + b)[i] == a[i]);
        } else {
            assert((a + b)[i] == b[i - a.len()]);
        }
    }
}

/// A message that starts with a literal starts with the literal's first
/// character.
proof fn lemma_first_char(lit: Seq<char>, rest: Seq<char>)
    requires
        lit.len() > 0,
    ensures
        (lit + rest).len() > 0,
        (lit + rest)[0] == lit[0],
{
}

proof fn lemma_required_not_links(d: ParsedDoc)
    ensures
        forall|i: int| 0 <= i < required_issues(d).len() ==> not_link_warning(#[trigger] required_issues(d)[i].1),
{
    reveal_strlit("missing required field `id`");
    reveal_strlit("missing required field `title`");
    reveal_strlit("missing required field `altitude`");
    reveal_strlit("altitude ");
    reveal_strlit("missing required field `topics` (need at least one)");
    let fm = d.frontmatter;
    let a: Seq<(bool, Seq<char>)> = if fm.id is None { seq![(true, "missing required field `id`"@)] } else { Seq::empty() };
    let b: Seq<(bool, Seq<char>)> = if fm.title is None { seq![(true, "missing required field `title`"@)] } else { Seq::empty() };
    let c: Seq<(bool, Seq<char>)> = match fm.altitude {
        None => seq![(true, "missing required field `altitude`"@)],
        Some(x) => if !altitude_ok(x) {
            seq![(true, "altitude "@ + int_str(x as int) + " out of range 0..=3"@)]
        } else {
            Seq::empty()
        },
    };
    let t: Seq<(bool, Seq<char>)> = if fm.topics@.len() == 0 {
        seq![(true, "missing required field `topics` (need at least one)"@)]
    } else {
        Seq::empty()
    };
    match fm.altitude {
        Some(x) => {
            lemma_first_char("altitude "@, int_str(x as int));
            lemma_first_char("altitude "@ + int_str(x as int), " out of range 0..=3"@);
        },
        None => {},
    }
    assert(forall|i: int| 0 <= i < c.len() ==> not_link_warning(#[trigger] c[i].1));
    lemma_no_link_warning_concat(a, b);
    lemma_no_link_warning_concat(a + b, c);
    lemma_no_link_warning_concat(a + b + c, t);
    assert(required_issues(d) == a + b + c + t);
}

proof fn lemma_relations_not_links(rels: Seq<(Seq<char>, Seq<char>)>, ids: Seq<Seq<char>>)
    ensures
        forall|i: int| 0 <= i < relation_issues(rels, ids).len()
            ==> not_link_warning(#[trigger] relation_issues(rels, ids)[i].1),
    decreases rels.len(),
{
    if rels.len() > 0 {
        lemma_relations_not_links(rels.drop_last(), ids);
        let r = relation_issues(rels.drop_last(), ids);
        let (t, g) = rels.last();
        reveal_strlit("unknown relation type `");
        reveal_strlit("relation `");
        let m1 = "unknown relation type `"@ + t + "` (expected one of: "@ + join(edge_types(), ", "@) + ")"@;
        let m2 = "relation `"@ + t + "` → `"@ + g + "` targets a non-existent doc id"@;
        lemma_first_char("unknown relation type `"@, t);
        lemma_first_char("unknown relation type `"@ + t, "` (expected one of: "@);
        lemma_first_char("unknown relation type `"@ + t + "` (expected one of: "@, join(edge_types(), ", "@));
        lemma_first_char("unknown relation type `"@ + t + "` (expected one of: "@ + join(edge_types(), ", "@), ")"@);
        lemma_first_char("relation `"@, t);
        lemma_first_char("relation `"@ + t, "` → `"@);
        lemma_first_char("relation `"@ + t + "` → `"@, g);
        lemma_first_char("relation `"@ + t + "` → `"@ + g, "` targets a non-existent doc id"@);
        assert(not_link_warning(m1));
        assert(not_link_warning(m2));
        let out = relation_issues(rels, ids);
        assert forall|i: int| 0 <= i < out.len() implies not_link_warning(#[trigger] out[i].1) by {
            if i < r.len() {
                assert(out[i] == r[i]);
            }
        }
    }
}

proof fn lemma_topics_not_links(topics: Seq<Seq<char>>, docs: Seq<ParsedDoc>, id: Seq<char>)
    ensures
        forall|i: int| 0 <= i < topic_issues(topics, docs, id).len()
            ==> not_link_warning(#[trigger] topic_issues(topics, docs, id)[i].1),
    decreases topics.len(),
{
    if topics.len() > 0 {
        lemma_topics_not_links(topics.drop_last(), docs, id);
        let r = topic_issues(topics.drop_last(), docs, id);
        reveal_strlit("topic `");
        lemma_first_char("topic `"@, topics.last());
        lemma_first_char(
            "topic `"@ + topics.last(),
            "` is not shared by any other document (possible typo)"@,
        );
        let out = topic_issues(topics, docs, id);
        assert forall|i: int| 0 <= i < out.len() implies not_link_warning(#[trigger] out[i].1) by {
            if i < r.len() {
                assert(out[i] == r[i]);
            }
        }
    }
}

/// The wikilink warnings of `links`: a warning names `t` exactly when `t` is
/// one of the links and not among `ids`; every issue is such a warning.
proof fn lemma_link_issues(links: Seq<Seq<char>>, ids: Seq<Seq<char>>, t: Seq<char>)
    ensures
        link_issues(links, ids).contains((false, "wikilink [["@ + t + "]] targets a non-existent doc id"@))
            <==> links.contains(t) && !ids.contains(t),
        forall|i: int| 0 <= i < link_issues(links, ids).len()
            ==> (#[trigger] link_issues(links, ids)[i]).1.len() > 0 && link_issues(links, ids)[i].1[0] == 'w',
    decreases links.len(),
{
    reveal_strlit("wikilink [[");
    let p = "wikilink [["@;
    let q = "]] targets a non-existent doc id"@;
    let m = p + t + q;
    if links.len() > 0 {
        let l0 = links.drop_last();
        let u = links.last();
        lemma_link_issues(l0, ids, t);
        let r = link_issues(l0, ids);
        let out = link_issues(links, ids);
        let mu = p + u + q;
        lemma_first_char(p, u);
        lemma_first_char(p + u, q);
        assert(mu == m ==> u == t) by {
            if mu == m {
                assert(u.len() == t.len());
                assert(u =~= mu.subrange(p.len() as int, p.len() + u.len() as int));
                assert(t =~= m.subrange(p.len() as int, p.len() + t.len() as int));
            }
        }
        assert forall|i: int| 0 <= i < out.len()
            implies (#[trigger] out[i]).1.len() > 0 && out[i].1[0] == 'w' by {
            if i < r.len() {
                assert(out[i] == r[i]);
            }
        }
        if r.contains((false, m)) {
            let i = choose|i: int| 0 <= i < r.len() && r[i] == (false, m);
            assert(out[i] == (false, m));
        }
        if links.contains(t) && !l0.contains(t) {
            let i = choose|i: int| 0 <= i < links.len() && links[i] == t;
            if i < l0.len() {
                assert(l0[i] == t);
            }
            assert(u == t);
        }
        if l0.contains(t) {
            let i = choose|i: int| 0 <= i < l0.len() && l0[i] == t;
            assert(links[i] == t);
        }
        if out.contains((false, m)) && !r.contains((false, m)) {
            let i = choose|i: int| 0 <= i < out.len() && out[i] == (false, m);
            if i < r.len() {
                assert(out[i] == r[i]);
            }
            assert(out == r.push((false, mu)));
            assert(links[links.len() - 1] == u);
        }
        if links.contains(t) && !ids.contains(t) && !l0.contains(t) {
            assert(out == r.push((false, mu)));
            assert(out[r.len() as int] == (false, m));
        }
    }
}

/// The ids declared are exactly those of the documents that have one.
proof fn lemma_declared_ids(docs: Seq<ParsedDoc>, t: Seq<char>)
    ensures
        declared_ids(docs).contains(t) <==> exists|j: int| 0 <= j < docs.len() && opt_str(
            (#[trigger] docs[j]).frontmatter.id,
        ) == Some(t),
    decreases docs.len(),
{
    if docs.len() > 0 {
        let d0 = docs.drop_last();
        lemma_declared_ids(d0, t);
        let r = declared_ids(d0);
        let out = declared_ids(docs);
        let n = docs.len() - 1;
        if r.contains(t) {
            let i = choose|i: int| 0 <= i < r.len() && r[i] == t;
            assert(out[i] == t);
            let j = choose|j: int| 0 <= j < d0.len() && opt_str((#[trigger] d0[j]).frontmatter.id) == Some(t);
            assert(docs[j] == d0[j]);
        }
        if exists|j: int| 0 <= j < docs.len() && opt_str((#[trigger] docs[j]).frontmatter.id) == Some(t) {
            let j = choose|j: int| 0 <= j < docs.len() && opt_str((#[trigger] docs[j]).frontmatter.id) == Some(t);
            if j < n {
                assert(d0[j] == docs[j]);
            } else {
                assert(out == r.push(t));
                assert(out[r.len() as int] == t);
            }
        }
        if out.contains(t) && !r.contains(t) {
            let i = choose|i: int| 0 <= i < out.len() && out[i] == t;
            if i < r.len() {
                assert(out[i] == r[i]);
            }
            assert(opt_str(docs[n].frontmatter.id) == Some(t));
        }
    }
}

/// For each wikilink target `t` of a document, the document's issues hold the
/// warning `wikilink [[t]] targets a non-existent doc id` exactly when no
/// document of the knowledge base has the id `t`.
pub proof fn lemma_wikilink_warning(d: ParsedDoc, docs: Seq<ParsedDoc>, t: Seq<char>)
    requires
        str_views(d.wikilinks@).contains(t),
    ensures
        filed(doc_issues(d, docs), d.rel_path@).contains(
            (Severity::Warn, d.rel_path@, "wikilink [["@ + t + "]] targets a non-existent doc id"@),
        ) <==> !exists|j: int| 0 <= j < docs.len() && opt_str((#[trigger] docs[j]).frontmatter.id) == Some(t),
{
    let m = "wikilink [["@ + t + "]] targets a non-existent doc id"@;
    let ids = declared_ids(docs);
    let fm = d.frontmatter;
    let req = required_issues(d);
    let rel = relation_issues(crate::model::relation_views(fm.relations@), ids);
    let lk = link_issues(str_views(d.wikilinks@), ids);
    let topics: Seq<(bool, Seq<char>)> = match fm.id {
        Some(id) => topic_issues(str_views(fm.topics@), docs, id@),
        None => Seq::empty(),
    };
    let body: Seq<(bool, Seq<char>)> = if trim(d.body@).len() == 0 {
        seq![(false, "body is empty (frontmatter only)"@)]
    } else {
        Seq::empty()
    };
    let all = doc_issues(d, docs);
    assert(all == req + rel + lk + topics + body);
    lemma_declared_ids(docs, t);
    lemma_link_issues(str_views(d.wikilinks@), ids, t);
    lemma_required_not_links(d);
    lemma_relations_not_links(crate::model::relation_views(fm.relations@), ids);
    match fm.id {
        Some(id) => lemma_topics_not_links(str_views(fm.topics@), docs, id@),
        None => {},
    }
    reveal_strlit("body is empty (frontmatter only)");
    assert(forall|i: int| 0 <= i < topics.len() ==> not_link_warning(#[trigger] topics[i].1));
    assert(forall|i: int| 0 <= i < body.len() ==> not_link_warning(#[trigger] body[i].1));
    lemma_no_link_warning_concat(req, rel);
    lemma_no_link_warning_concat(topics, body);
    reveal_strlit("wikilink [[");
    lemma_first_char("wikilink [["@, t);
    lemma_first_char("wikilink [["@ + t, "]] targets a non-existent doc id"@);
    let head = req + rel;
    let tail = topics + body;
    // The warning is in the whole list exactly when it is among the link issues.
    if all.contains((false, m)) {
        let i = choose|i: int| 0 <= i < all.len() && all[i] == (false, m);
        if i < head.len() {
            assert(all[i] == head[i]);
            assert(not_link_warning(head[i].1));
        } else if i < head.len() + lk.len() {
            assert(all[i] == lk[i - head.len()]);
        } else {
            assert(all[i] == tail[i - head.len() - lk.len()]);
            assert(not_link_warning(tail[i - head.len() - lk.len()].1));
        }
    }
    if lk.contains((false, m)) {
        let i = choose|i: int| 0 <= i < lk.len() && lk[i] == (false, m);
        assert(all[head.len() + i] == (false, m));
    }
    // Filing keeps the issue and marks a warning as `Warn`.
    let f = filed(all, d.rel_path@);
    if f.contains((Severity::Warn, d.rel_path@, m)) {
        let i = choose|i: int| 0 <= i < f.len() && f[i] == (Severity::Warn, d.rel_path@, m);
        assert(all[i] == (false, m));
    }
    if all.contains((false, m)) {
        let i = choose|i: int| 0 <= i < all.len() && all[i] == (false, m);
        assert(f[i] == (Severity::Warn, d.rel_path@, m));
    }
}

/// The issues of one document, each filed under the document's path.
pub open spec fn filed(issues: Seq<(bool, Seq<char>)>, file: Seq<char>) -> Seq<(Severity, Seq<char>, Seq<char>)> {
    issues.map_values(|i: (bool, Seq<char>)| (if i.0 { Severity::Error } else { Severity::Warn }, file, i.1))
}

fn push_issue(out: &mut Vec<(bool, String)>, err: bool, msg: Vec<char>)
    ensures
        final(out)@.map_values(|i: (bool, String)| (i.0, i.1@)) == old(out)@.map_values(
            |i: (bool, String)| (i.0, i.1@),
        ).push((err, msg@)),
{
    let ghost before = out@.map_values(|i: (bool, String)| (i.0, i.1@));
    out.push((err, string_of(&msg)));
    proof {
        assert(out@.map_values(|i: (bool, String)| (i.0, i.1@)) =~= before.push((err, msg@)));
    }
}

/// The model of a list of found issues.
pub open spec fn found_views(v: Seq<(bool, String)>) -> Seq<(bool, Seq<char>)> {
    v.map_values(|i: (bool, String)| (i.0, i.1@))
}

fn declared_ids_exec(docs: &Vec<ParsedDoc>) -> (r: Vec<String>)
    ensures
        str_views(r@) == declared_ids(docs@),
{
    let mut out: Vec<String> = Vec::new();
    let mut i: usize = 0;
    proof {
        assert(docs@.take(0) =~= Seq::<ParsedDoc>::empty());
        assert(str_views(out@) =~= Seq::<Seq<char>>::empty());
    }
    while i < docs.len()
        invariant
            i <= docs@.len(),
            str_views(out@) == declared_ids(docs@.take(i as int)),
        decreases docs@.len() - i,
    {
        proof {
            assert(docs@.take(i + 1).drop_last() =~= docs@.take(i as int));
            assert(docs@.take(i + 1).last() == docs@[i as int]);
        }
        match &docs[i].frontmatter.id {
            Some(id) => {
                let ghost before = str_views(out@);
                out.push(id.clone());
                proof {
                    assert(str_views(out@) =~= before.push(id@));
                }
            },
            None => {},
        }
        i += 1;
    }
    proof {
        assert(docs@.take(i as int) =~= docs@);
    }
    out
}

fn uses_prefix_exec(d: &ParsedDoc, p: &String) -> (b: bool)
    ensures
        b == uses_prefix(*d, p@),
{
    if d.frontmatter.id.is_none() {
        return false;
    }
    let mut j: usize = 0;
    while j < d.frontmatter.topics.len()
        invariant
            j <= d.frontmatter.topics@.len(),
            d.frontmatter.id is Some,
            forall|k: int| 0 <= k < j ==> !ancestor_prefixes_spec(#[trigger] d.frontmatter.topics@[k]@).contains(p@),
        decreases d.frontmatter.topics@.len() - j,
    {
        let ps = ancestor_prefixes(d.frontmatter.topics[j].as_str());
        if contains_str(&ps, p) {
            assert(ancestor_prefixes_spec(d.frontmatter.topics@[j as int]@).contains(p@));
            return true;
        }
        j += 1;
    }
    proof {
        if uses_prefix(*d, p@) {
            let k = choose|k: int| 0 <= k < d.frontmatter.topics@.len() && ancestor_prefixes_spec(
                #[trigger] d.frontmatter.topics@[k]@,
            ).contains(p@);
            assert(!ancestor_prefixes_spec(d.frontmatter.topics@[k]@).contains(p@));
        }
    }
    false
}

fn lonely_exec(docs: &Vec<ParsedDoc>, id: &String, topic: &String) -> (b: bool)
    ensures
        b == lonely_topic(docs@, id@, topic@),
{
    let ps = ancestor_prefixes(topic.as_str());
    let mut k: usize = 0;
    while k < ps.len()
        invariant
            k <= ps@.len(),
            str_views(ps@) == ancestor_prefixes_spec(topic@),
            forall|kk: int, j: int| 0 <= kk < k && 0 <= j < docs@.len() && uses_prefix(
                #[trigger] docs@[j],
                #[trigger] ancestor_prefixes_spec(topic@)[kk],
            ) ==> self_id(docs@[j]) == id@,
        decreases ps@.len() - k,
    {
        let mut j: usize = 0;
        while j < docs.len()
            invariant
                k < ps@.len(),
                j <= docs@.len(),
                str_views(ps@) == ancestor_prefixes_spec(topic@),
                forall|jj: int| 0 <= jj < j && uses_prefix(#[trigger] docs@[jj], ps@[k as int]@) ==> self_id(docs@[jj]) == id@,
            decreases docs@.len() - j,
        {
            if uses_prefix_exec(&docs[j], &ps[k]) {
                let sid = match &docs[j].frontmatter.id {
                    Some(x) => x.clone(),
                    None => String::new(),
                };
                if sid != *id {
                    proof {
                        assert(ancestor_prefixes_spec(topic@)[k as int] == ps@[k as int]@);
                    }
                    return false;
                }
            }
            j += 1;
        }
        proof {
            assert forall|kk: int, jj: int| 0 <= kk < k + 1 && 0 <= jj < docs@.len() && uses_prefix(
                #[trigger] docs@[jj],
                #[trigger] ancestor_prefixes_spec(topic@)[kk],
            ) implies self_id(docs@[jj]) == id@ by {
                if kk == k {
                    assert(ancestor_prefixes_spec(topic@)[kk] == ps@[k as int]@);
                }
            }
        }
        k += 1;
    }
    true
}

/// Everything wrong with one document, given all the documents of the KB:
/// missing fields, a bad altitude, unknown relation types (errors); dangling
/// relations and wikilinks, topics nobody else shares, an empty body
/// (warnings).
pub fn validate_doc(doc: &ParsedDoc, docs: &Vec<ParsedDoc>) -> (r: Vec<Issue>)
    ensures
        issue_views(r@) == filed(doc_issues(*doc, docs@), doc.rel_path@),
        forall|t: Seq<char>| #[trigger] str_views(doc.wikilinks@).contains(t) ==> (issue_views(r@).contains(
            (Severity::Warn, doc.rel_path@, "wikilink [["@ + t + "]] targets a non-existent doc id"@),
        ) <==> !exists|j: int| 0 <= j < docs@.len() && opt_str((#[trigger] docs@[j]).frontmatter.id) == Some(t)),
{
    let ids = declared_ids_exec(docs);
    let mut found: Vec<(bool, String)> = Vec::new();
    let fm = &doc.frontmatter;
    let ghost g0 = found_views(found@);
    if fm.id.is_none() {
        push_issue(&mut found, true, chars_of("missing required field `id`"));
    }
    if fm.title.is_none() {
        push_issue(&mut found, true, chars_of("missing required field `title`"));
    }
    match fm.altitude {
        None => {
            push_issue(&mut found, true, chars_of("missing required field `altitude`"));
        },
        Some(a) => {
            if !(0 <= a && a <= MAX_ALTITUDE) {
                let mut m: Vec<char> = Vec::new();
                push_str(&mut m, "altitude ");
                let n = i64_to_string(a);
                push_str(&mut m, n.as_str());
                push_str(&mut m, " out of range 0..=3");
                push_issue(&mut found, true, m);
            }
        },
    }
    if fm.topics.len() == 0 {
        push_issue(&mut found, true, chars_of("missing required field `topics` (need at least one)"));
    }
    proof {
        assert(found_views(found@) =~= g0 + required_issues(*doc));
    }
    // Relations.
    let ghost g1 = found_views(found@);
    let ghost rv = crate::model::relation_views(fm.relations@);
    let mut i: usize = 0;
    proof {
        assert(rv.take(0) =~= Seq::<(Seq<char>, Seq<char>)>::empty());
        assert(found_views(found@) =~= g1 + relation_issues(rv.take(0), str_views(ids@)));
    }
    while i < fm.relations.len()
        invariant
            i <= fm.relations@.len(),
            rv == crate::model::relation_views(fm.relations@),
            found_views(found@) == g1 + relation_issues(rv.take(i as int), str_views(ids@)),
        decreases fm.relations@.len() - i,
    {
        proof {
            assert(rv.take(i + 1).drop_last() =~= rv.take(i as int));
            assert(rv.take(i + 1).last() == fm.relations@[i as int]@);
        }
        let rel = &fm.relations[i];
        if !is_edge_type(rel.edge_type.as_str()) {
            let mut m: Vec<char> = Vec::new();
            push_str(&mut m, "unknown relation type `");
            push_str(&mut m, rel.edge_type.as_str());
            push_str(&mut m, "` (expected one of: ");
            let list = edge_type_list();
            push_str(&mut m, list.as_str());
            push_str(&mut m, ")");
            push_issue(&mut found, true, m);
        } else if !contains_str(&ids, &rel.target) {
            let mut m: Vec<char> = Vec::new();
            push_str(&mut m, "relation `");
            push_str(&mut m, rel.edge_type.as_str());
            push_str(&mut m, "` → `");
            push_str(&mut m, rel.target.as_str());
            push_str(&mut m, "` targets a non-existent doc id");
            push_issue(&mut found, false, m);
        }
        proof {
            let r0 = relation_issues(rv.take(i as int), str_views(ids@));
            assert(found_views(found@) =~= g1 + relation_issues(rv.take(i + 1), str_views(ids@)));
        }
        i += 1;
    }
    proof {
        assert(rv.take(i as int) =~= rv);
    }
    // Wikilinks.
    let ghost g2 = found_views(found@);
    let ghost lv = str_views(doc.wikilinks@);
    let mut i: usize = 0;
    proof {
        assert(lv.take(0) =~= Seq::<Seq<char>>::empty());
        assert(found_views(found@) =~= g2 + link_issues(lv.take(0), str_views(ids@)));
    }
    while i < doc.wikilinks.len()
        invariant
            i <= doc.wikilinks@.len(),
            lv == str_views(doc.wikilinks@),
            found_views(found@) == g2 + link_issues(lv.take(i as int), str_views(ids@)),
        decreases doc.wikilinks@.len() - i,
    {
        proof {
            assert(lv.take(i + 1).drop_last() =~= lv.take(i as int));
            assert(lv.take(i + 1).last() == doc.wikilinks@[i as int]@);
        }
        if !contains_str(&ids, &doc.wikilinks[i]) {
            let mut m: Vec<char> = Vec::new();
            push_str(&mut m, "wikilink [[");
            push_str(&mut m, doc.wikilinks[i].as_str());
            push_str(&mut m, "]] targets a non-existent doc id");
            push_issue(&mut found, false, m);
        }
        proof {
            assert(found_views(found@) =~= g2 + link_issues(lv.take(i + 1), str_views(ids@)));
        }
        i += 1;
    }
    proof {
        assert(lv.take(i as int) =~= lv);
    }
    // Topics nobody else shares.
    let ghost g3 = found_views(found@);
    match &fm.id {
        Some(id) => {
            let ghost tv = str_views(fm.topics@);
            let mut i: usize = 0;
            proof {
                assert(tv.take(0) =~= Seq::<Seq<char>>::empty());
                assert(found_views(found@) =~= g3 + topic_issues(tv.take(0), docs@, id@));
            }
            while i < fm.topics.len()
                invariant
                    i <= fm.topics@.len(),
                    tv == str_views(fm.topics@),
                    found_views(found@) == g3 + topic_issues(tv.take(i as int), docs@, id@),
                decreases fm.topics@.len() - i,
            {
                proof {
                    assert(tv.take(i + 1).drop_last() =~= tv.take(i as int));
                    assert(tv.take(i + 1).last() == fm.topics@[i as int]@);
                }
                if lonely_exec(docs, id, &fm.topics[i]) {
                    let mut m: Vec<char> = Vec::new();
                    push_str(&mut m, "topic `");
                    push_str(&mut m, fm.topics[i].as_str());
                    push_str(&mut m, "` is not shared by any other document (possible typo)");
                    push_issue(&mut found, false, m);
                }
                proof {
                    assert(found_views(found@) =~= g3 + topic_issues(tv.take(i + 1), docs@, id@));
                }
                i += 1;
            }
            proof {
                assert(tv.take(i as int) =~= tv);
            }
        },
        None => {
            proof {
                assert(found_views(found@) =~= g3 + Seq::<(bool, Seq<char>)>::empty());
            }
        },
    }
    // Empty body.
    let ghost g4 = found_views(found@);
    let bc = chars_of(doc.body.as_str());
    let (a, b) = trim_bounds(&bc, 0, bc.len());
    proof {
        assert(bc@.subrange(0, bc@.len() as int) =~= bc@);
    }
    if a == b {
        push_issue(&mut found, false, chars_of("body is empty (frontmatter only)"));
    }
    proof {
        assert(found_views(found@) =~= g4 + (if trim(doc.body@).len() == 0 {
            seq![(false, "body is empty (frontmatter only)"@)]
        } else {
            Seq::<(bool, Seq<char>)>::empty()
        }));
        assert(found_views(found@) =~= doc_issues(*doc, docs@));
    }
    // File every issue under the document's path.
    let mut out: Vec<Issue> = Vec::new();
    let ghost fv = found_views(found@);
    let mut k: usize = 0;
    while k < found.len()
        invariant
            k <= found@.len(),
            fv == found_views(found@),
            issue_views(out@) == filed(fv.take(k as int), doc.rel_path@),
        decreases found@.len() - k,
    {
        let sev = if found[k].0 { Severity::Error } else { Severity::Warn };
        let ghost before = issue_views(out@);
        out.push(Issue { severity: sev, file: doc.rel_path.clone(), message: found[k].1.clone() });
        proof {
            assert(issue_views(out@) =~= before.push((sev, doc.rel_path@, fv[k as int].1)));
            assert(filed(fv.take(k + 1), doc.rel_path@) =~= filed(fv.take(k as int), doc.rel_path@).push(
                (sev, doc.rel_path@, fv[k as int].1),
            ));
        }
        k += 1;
    }
    proof {
        assert(fv.take(k as int) =~= fv);
        assert forall|t: Seq<char>| #[trigger] str_views(doc.wikilinks@).contains(t) implies (issue_views(
            out@,
        ).contains((Severity::Warn, doc.rel_path@, "wikilink [["@ + t + "]] targets a non-existent doc id"@))
            <==> !exists|j: int| 0 <= j < docs@.len() && opt_str((#[trigger] docs@[j]).frontmatter.id) == Some(t)) by {
            lemma_wikilink_warning(*doc, docs@, t);
        }
    }
    out
}


// ---------------------------------------------------------------------------
// Linting a whole knowledge base
// ---------------------------------------------------------------------------

/// The issues of every document, in document order.
pub open spec fn docs_issues(ds: Seq<ParsedDoc>, all: Seq<ParsedDoc>) -> Seq<(Severity, Seq<char>, Seq<char>)>
    decreases ds.len(),
{
    if ds.len() == 0 {
        Seq::empty()
    } else {
        docs_issues(ds.drop_last(), all) + filed(doc_issues(ds.last(), all), ds.last().rel_path@)
    }
}

/// The distinct ids of `ids`, in first-seen order.
pub open spec fn distinct_ids(ids: Seq<Seq<char>>) -> Seq<Seq<char>>
    decreases ids.len(),
{
    if ids.len() == 0 {
        Seq::empty()
    } else {
        let r = distinct_ids(ids.drop_last());
        if r.contains(ids.last()) { r } else { r.push(ids.last()) }
    }
}

/// The files of the documents whose id is `id`, in document order.
pub open spec fn files_with_id(docs: Seq<ParsedDoc>, id: Seq<char>) -> Seq<Seq<char>>
    decreases docs.len(),
{
    if docs.len() == 0 {
        Seq::empty()
    } else {
        let r = files_with_id(docs.drop_last(), id);
        if opt_str(docs.last().frontmatter.id) == Some(id) { r.push(docs.last().rel_path@) } else { r }
    }
}

/// One error per id that more than one file declares.
pub open spec fn duplicate_issues(ids: Seq<Seq<char>>, docs: Seq<ParsedDoc>) -> Seq<(Severity, Seq<char>, Seq<char>)>
    decreases ids.len(),
{
    if ids.len() == 0 {
        Seq::empty()
    } else {
        let r = duplicate_issues(ids.drop_last(), docs);
        let files = files_with_id(docs, ids.last());
        if files.len() > 1 {
            r.push((Severity::Error, join(files, ", "@), "duplicate id `"@ + ids.last() + "`"@))
        } else {
            r
        }
    }
}

/// Everything lint reports for a knowledge base.
pub open spec fn lint_issues(docs: Seq<ParsedDoc>) -> Seq<(Severity, Seq<char>, Seq<char>)> {
    docs_issues(docs, docs) + duplicate_issues(distinct_ids(declared_ids(docs)), docs)
}

/// How many issues have severity `sev`.
pub open spec fn count_severity(issues: Seq<(Severity, Seq<char>, Seq<char>)>, sev: Severity) -> nat
    decreases issues.len(),
{
    if issues.len() == 0 {
        0
    } else {
        count_severity(issues.drop_last(), sev) + if issues.last().0 == sev { 1nat } else { 0nat }
    }
}

/// What lint found.
pub struct LintReport {
    pub issues: Vec<Issue>,
    pub errors: usize,
    pub warnings: usize,
    pub documents: usize,
}

impl LintReport {
    /// Whether the knowledge base passes: no errors, and under `strict` no
    /// warnings either.
    pub fn passed(&self, strict: bool) -> (b: bool)
        ensures
            b == (self.errors == 0 && (!strict || self.warnings == 0)),
    {
        self.errors == 0 && (!strict || self.warnings == 0)
    }
}

fn files_with_id_exec(docs: &Vec<ParsedDoc>, id: &String) -> (r: Vec<String>)
    ensures
        str_views(r@) == files_with_id(docs@, id@),
{
    let mut out: Vec<String> = Vec::new();
    let mut i: usize = 0;
    proof {
        assert(docs@.take(0) =~= Seq::<ParsedDoc>::empty());
        assert(str_views(out@) =~= Seq::<Seq<char>>::empty());
    }
    while i < docs.len()
        invariant
            i <= docs@.len(),
            str_views(out@) == files_with_id(docs@.take(i as int), id@),
        decreases docs@.len() - i,
    {
        proof {
            assert(docs@.take(i + 1).drop_last() =~= docs@.take(i as int));
            assert(docs@.take(i + 1).last() == docs@[i as int]);
        }
        let hit = match &docs[i].frontmatter.id {
            Some(x) => *x == *id,
            None => false,
        };
        if hit {
            let ghost before = str_views(out@);
            out.push(docs[i].rel_path.clone());
            proof {
                assert(str_views(out@) =~= before.push(docs@[i as int].rel_path@));
            }
        }
        i += 1;
    }
    proof {
        assert(docs@.take(i as int) =~= docs@);
    }
    out
}

/// Lint every document of a knowledge base, then report ids that more than
/// one file declares.
pub fn lint_docs(docs: &Vec<ParsedDoc>) -> (r: LintReport)
    ensures
        issue_views(r.issues@) == lint_issues(docs@),
        r.errors == count_severity(lint_issues(docs@), Severity::Error),
        r.warnings == count_severity(lint_issues(docs@), Severity::Warn),
        r.documents == docs@.len(),
{
    let mut issues: Vec<Issue> = Vec::new();
    let mut i: usize = 0;
    proof {
        assert(docs@.take(0) =~= Seq::<ParsedDoc>::empty());
        assert(issue_views(issues@) =~= Seq::<(Severity, Seq<char>, Seq<char>)>::empty());
    }
    while i < docs.len()
        invariant
            i <= docs@.len(),
            issue_views(issues@) == docs_issues(docs@.take(i as int), docs@),
        decreases docs@.len() - i,
    {
        proof {
            assert(docs@.take(i + 1).drop_last() =~= docs@.take(i as int));
            assert(docs@.take(i + 1).last() == docs@[i as int]);
        }
        let found = validate_doc(&docs[i], docs);
        let ghost before = issue_views(issues@);
        let mut k: usize = 0;
        while k < found.len()
            invariant
                k <= found@.len(),
                issue_views(issues@) == before + issue_views(found@).take(k as int),
            decreases found@.len() - k,
        {
            let it = Issue { severity: found[k].severity, file: found[k].file.clone(), message: found[k].message.clone() };
            let ghost b2 = issue_views(issues@);
            issues.push(it);
            proof {
                assert(issue_views(issues@) =~= b2.push(found@[k as int]@));
                assert(issue_views(found@).take(k + 1) =~= issue_views(found@).take(k as int).push(found@[k as int]@));
            }
            k += 1;
        }
        proof {
            assert(issue_views(found@).take(k as int) =~= issue_views(found@));
        }
        i += 1;
    }
    proof {
        assert(docs@.take(i as int) =~= docs@);
    }
    // Duplicate ids.
    let ids = declared_ids_exec(docs);
    let ghost iv = str_views(ids@);
    let mut seen: Vec<String> = Vec::new();
    let ghost base = issue_views(issues@);
    let mut j: usize = 0;
    proof {
        assert(iv.take(0) =~= Seq::<Seq<char>>::empty());
        assert(str_views(seen@) =~= Seq::<Seq<char>>::empty());
        assert(issue_views(issues@) =~= base + duplicate_issues(Seq::<Seq<char>>::empty(), docs@));
    }
    while j < ids.len()
        invariant
            j <= ids@.len(),
            iv == str_views(ids@),
            str_views(seen@) == distinct_ids(iv.take(j as int)),
            issue_views(issues@) == base + duplicate_issues(distinct_ids(iv.take(j as int)), docs@),
        decreases ids@.len() - j,
    {
        proof {
            assert(iv.take(j + 1).drop_last() =~= iv.take(j as int));
            assert(iv.take(j + 1).last() == ids@[j as int]@);
        }
        if !contains_str(&seen, &ids[j]) {
            let ghost before = str_views(seen@);
            seen.push(ids[j].clone());
            proof {
                assert(str_views(seen@) =~= before.push(ids@[j as int]@));
                assert(str_views(seen@).drop_last() =~= before);
            }
            let files = files_with_id_exec(docs, &ids[j]);
            if files.len() > 1 {
                let mut m: Vec<char> = Vec::new();
                push_str(&mut m, "duplicate id `");
                push_str(&mut m, ids[j].as_str());
                push_str(&mut m, "`");
                let f = join_exec(&files, ", ");
                let ghost b2 = issue_views(issues@);
                issues.push(Issue { severity: Severity::Error, file: f, message: string_of(&m) });
                proof {
                    assert(issue_views(issues@) =~= b2.push((Severity::Error, join(str_views(files@), ", "@), m@)));
                }
            }
        }
        j += 1;
    }
    proof {
        assert(iv.take(j as int) =~= iv);
    }
    // Counts.
    let ghost all = issue_views(issues@);
    let mut errors: usize = 0;
    let mut warnings: usize = 0;
    let mut k: usize = 0;
    proof {
        assert(all.take(0) =~= Seq::<(Severity, Seq<char>, Seq<char>)>::empty());
    }
    while k < issues.len()
        invariant
            k <= issues@.len(),
            all == issue_views(issues@),
            errors == count_severity(all.take(k as int), Severity::Error),
            warnings == count_severity(all.take(k as int), Severity::Warn),
            errors + warnings == k,
        decreases issues@.len() - k,
    {
        proof {
            assert(all.take(k + 1).drop_last() =~= all.take(k as int));
            assert(all.take(k + 1).last() == issues@[k as int]@);
        }
        match issues[k].severity {
            Severity::Error => {
                errors += 1;
            },
            Severity::Warn => {
                warnings += 1;
            },
        }
        k += 1;
    }
    proof {
        assert(all.take(k as int) =~= all);
    }
    LintReport { issues, errors, warnings, documents: docs.len() }
}

} // verus!
