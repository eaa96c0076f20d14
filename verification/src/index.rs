//! `engrym index`: which documents go into the index, and what of them.
//!
//! Every document must carry an id, a title, an altitude in range, a topic,
//! and only known relation types; ids are unique across the KB. A failure
//! stops the build at the first document that fails, in walk order. Passages
//! whose text is unchanged reuse their cached vectors. Writing the SQLite
//! index and running the embedding model are the caller's.

use vstd::prelude::*;
use crate::model::{edge_types, opt_str, relation_views, MAX_ALTITUDE};
use crate::parse::{content_hash, hex_spec, sha256_of, ParsedDoc};
use crate::text::{
    chars_of, copy_strings, i64_to_string, int_str, push_str, split_char, split_char_exec,
    str_views, string_of, views, utf8_of,
};

verus! {

/// A document that passed validation, ready to persist.
pub struct ValidDoc {
    pub id: String,
    pub title: String,
    pub altitude: i64,
    pub summary: Option<String>,
    pub topics: Vec<String>,
    pub content_hash: String,
}

/// Why the index cannot be built.
pub enum IndexError {
    /// A required frontmatter field is absent.
    MissingField { path: String, field: String },
    AltitudeRange { path: String, altitude: i64 },
    NoTopic { path: String },
    UnknownRelation { path: String, edge_type: String },
    /// Two documents share an id.
    Duplicate { id: String, first: String, second: String },
}

/// What an index error says.
pub open spec fn index_msg(e: IndexError) -> Seq<char> {
    match e {
        IndexError::MissingField { path, field } => path@ + ": missing required field `"@ + field@ + "`"@,
        IndexError::AltitudeRange { path, altitude } => path@ + ": altitude "@ + int_str(altitude as int)
            + " out of range 0..=3"@,
        IndexError::NoTopic { path } => path@ + ": at least one topic is required"@,
        IndexError::UnknownRelation { path, edge_type } => path@ + ": unknown relation type `"@ + edge_type@
            + "`"@,
        IndexError::Duplicate { id, first, second } => "duplicate id `"@ + id@ + "` in "@ + first@ + " and "@
            + second@,
    }
}

impl IndexError {
    pub fn message(&self) -> (r: String)
        ensures
            r@ == index_msg(*self),
    {
        let mut out: Vec<char> = Vec::new();
        match self {
            IndexError::MissingField { path, field } => {
                push_str(&mut out, path.as_str());
                push_str(&mut out, ": missing required field `");
                push_str(&mut out, field.as_str());
                push_str(&mut out, "`");
            },
            IndexError::AltitudeRange { path, altitude } => {
                push_str(&mut out, path.as_str());
                push_str(&mut out, ": altitude ");
                let a = i64_to_string(*altitude);
                push_str(&mut out, a.as_str());
                push_str(&mut out, " out of range 0..=3");
            },
            IndexError::NoTopic { path } => {
                push_str(&mut out, path.as_str());
                push_str(&mut out, ": at least one topic is required");
            },
            IndexError::UnknownRelation { path, edge_type } => {
                push_str(&mut out, path.as_str());
                push_str(&mut out, ": unknown relation type `");
                push_str(&mut out, edge_type.as_str());
                push_str(&mut out, "`");
            },
            IndexError::Duplicate { id, first, second } => {
                push_str(&mut out, "duplicate id `");
                push_str(&mut out, id.as_str());
                push_str(&mut out, "` in ");
                push_str(&mut out, first.as_str());
                push_str(&mut out, " and ");
                push_str(&mut out, second.as_str());
            },
        }
        string_of(&out)
    }
}

/// The first relation whose type is not a known one.
pub open spec fn first_unknown(rels: Seq<(Seq<char>, Seq<char>)>) -> Option<int>
    decreases rels.len(),
{
    if rels.len() == 0 {
        None
    } else if !edge_types().contains(rels[0].0) {
        Some(0)
    } else {
        match first_unknown(rels.drop_first()) {
            Some(i) => Some(i + 1),
            None => None,
        }
    }
}

/// The message validation of a document with frontmatter `fm` at `path`
/// fails with, checking id, title, altitude, topics and relation types in
/// that order; `None` when it passes.
pub open spec fn validation_error(fm: crate::model::FrontmatterView, path: Seq<char>) -> Option<Seq<char>> {
    if fm.0 is None {
        Some(path + ": missing required field `"@ + "id"@ + "`"@)
    } else if fm.1 is None {
        Some(path + ": missing required field `"@ + "title"@ + "`"@)
    } else if fm.2 is None {
        Some(path + ": missing required field `"@ + "altitude"@ + "`"@)
    } else if !(0 <= fm.2->0 <= MAX_ALTITUDE) {
        Some(path + ": altitude "@ + int_str(fm.2->0 as int) + " out of range 0..=3"@)
    } else if fm.3.len() == 0 {
        Some(path + ": at least one topic is required"@)
    } else {
        match first_unknown(fm.4) {
            Some(i) => Some(path + ": unknown relation type `"@ + fm.4[i].0 + "`"@),
            None => None,
        }
    }
}

proof fn lemma_first_unknown(rels: Seq<(Seq<char>, Seq<char>)>)
    ensures
        match first_unknown(rels) {
            Some(i) => 0 <= i < rels.len() && !edge_types().contains(rels[i].0)
                && forall|j: int| 0 <= j < i ==> edge_types().contains(#[trigger] rels[j].0),
            None => forall|j: int| 0 <= j < rels.len() ==> edge_types().contains(#[trigger] rels[j].0),
        },
    decreases rels.len(),
{
    if rels.len() > 0 {
        lemma_first_unknown(rels.drop_first());
        if edge_types().contains(rels[0].0) {
            assert forall|j: int| 1 <= j < rels.len() implies rels[j] == rels.drop_first()[j - 1] by {}
        }
    }
}

/// The indexed record of a valid document carries its frontmatter fields
/// and its content hash.
pub open spec fn records(v: ValidDoc, doc: ParsedDoc) -> bool {
    &&& v.id@ == doc.frontmatter.id->0@
    &&& v.title@ == doc.frontmatter.title->0@
    &&& v.altitude == doc.frontmatter.altitude->0
    &&& opt_str(v.summary) == opt_str(doc.frontmatter.summary)
    &&& str_views(v.topics@) == str_views(doc.frontmatter.topics@)
    &&& v.content_hash@ == doc.content_hash@
}

/// Validate a document for the index.
pub fn validate(doc: &ParsedDoc, rel_path: &str) -> (r: Result<ValidDoc, IndexError>)
    ensures
        match validation_error(doc.frontmatter@, rel_path@) {
            Some(m) => r matches Err(e) && index_msg(e) == m,
            None => r matches Ok(v) && records(v, *doc),
        },
{
    let fm = &doc.frontmatter;
    let path = rel_path.to_owned();
    let id = match &fm.id {
        Some(i) => i.clone(),
        None => return Err(IndexError::MissingField { path, field: "id".to_owned() }),
    };
    let title = match &fm.title {
        Some(t) => t.clone(),
        None => return Err(IndexError::MissingField { path, field: "title".to_owned() }),
    };
    let altitude = match fm.altitude {
        Some(a) => a,
        None => return Err(IndexError::MissingField { path, field: "altitude".to_owned() }),
    };
    if !(0 <= altitude && altitude <= MAX_ALTITUDE) {
        return Err(IndexError::AltitudeRange { path, altitude });
    }
    if fm.topics.len() == 0 {
        return Err(IndexError::NoTopic { path });
    }
    let mut i: usize = 0;
    while i < fm.relations.len()
        invariant
            i <= fm.relations@.len(),
            fm == &doc.frontmatter,
            path@ == rel_path@,
            fm.id is Some,
            fm.title is Some,
            fm.altitude is Some,
            0 <= fm.altitude->0 <= MAX_ALTITUDE,
            fm.topics@.len() > 0,
            forall|j: int| 0 <= j < i ==> edge_types().contains(#[trigger] relation_views(fm.relations@)[j].0),
        decreases fm.relations@.len() - i,
    {
        assert(relation_views(fm.relations@)[i as int] == fm.relations@[i as int]@);
        if !fm.relations[i].is_valid_type() {
            proof {
                assert(!edge_types().contains(relation_views(fm.relations@)[i as int].0));
                lemma_first_unknown(relation_views(fm.relations@));
                match first_unknown(relation_views(fm.relations@)) {
                    Some(k) => {
                        if k < i {
                        } else if k > i {
                        }
                        assert(k == i as int);
                    },
                    None => {},
                }
            }
            let et = fm.relations[i].edge_type.clone();
            proof {
                assert(et@ == relation_views(fm.relations@)[i as int].0);
                assert(first_unknown(relation_views(fm.relations@)) == Some(i as int));
            }
            return Err(IndexError::UnknownRelation { path, edge_type: et });
        }
        i += 1;
    }
    proof {
        lemma_first_unknown(relation_views(fm.relations@));
        if let Some(k) = first_unknown(relation_views(fm.relations@)) {
            assert(edge_types().contains(relation_views(fm.relations@)[k].0));
        }
    }
    let summary = match &fm.summary {
        Some(s) => Some(s.clone()),
        None => None,
    };
    let topics = copy_strings(&fm.topics);
    Ok(ValidDoc { id, title, altitude, summary, topics, content_hash: doc.content_hash.clone() })
}

/// The ids seen so far while indexing, with the file each came from.
pub open spec fn id_index(seen: Seq<(Seq<char>, Seq<char>)>, id: Seq<char>) -> Option<int>
    decreases seen.len(),
{
    if seen.len() == 0 {
        None
    } else if seen.last().0 == id {
        Some(seen.len() - 1)
    } else {
        id_index(seen.drop_last(), id)
    }
}

/// The views of the ids seen so far.
pub open spec fn seen_views(seen: Seq<(String, String)>) -> Seq<(Seq<char>, Seq<char>)> {
    seen.map_values(|p: (String, String)| (p.0@, p.1@))
}

/// Take the next document in walk order: validate it, refuse an id already
/// seen (naming the file that had it), and record it.
pub fn index_step(seen: &mut Vec<(String, String)>, doc: &ParsedDoc, rel_path: &str)
    -> (r: Result<ValidDoc, IndexError>)
    ensures
        match validation_error(doc.frontmatter@, rel_path@) {
            Some(m) => r matches Err(e) && index_msg(e) == m && final(seen)@ == old(seen)@,
            None => {
                let id = doc.frontmatter.id->0@;
                match id_index(seen_views(old(seen)@), id) {
                    Some(k) => r matches Err(e) && index_msg(e) == "duplicate id `"@ + id + "` in "@
                        + seen_views(old(seen)@)[k].1 + " and "@ + rel_path@ && final(seen)@ == old(seen)@,
                    None => r matches Ok(v) && records(v, *doc)
                        && seen_views(final(seen)@) == seen_views(old(seen)@).push((id, rel_path@)),
                }
            },
        },
{
    let v = match validate(doc, rel_path) {
        Ok(v) => v,
        Err(e) => return Err(e),
    };
    let ghost sv = seen_views(seen@);
    let mut i = seen.len();
    proof {
        assert(sv.take(i as int) =~= sv);
    }
    while i > 0
        invariant
            i <= seen@.len(),
            sv == seen_views(seen@),
            seen@ == old(seen)@,
            validation_error(doc.frontmatter@, rel_path@) is None,
            records(v, *doc),
            id_index(sv, v.id@) == id_index(sv.take(i as int), v.id@),
        decreases i,
    {
        proof {
            assert(sv.take(i as int).drop_last() =~= sv.take(i - 1));
        }
        if seen[i - 1].0 == v.id {
            let first = seen[i - 1].1.clone();
            proof {
                assert(sv.take(i as int).last() == sv[i - 1]);
                assert(sv[i - 1].0 == v.id@);
                assert(id_index(sv.take(i as int), v.id@) == Some((i - 1) as int));
                assert(sv[i - 1].1 == first@);
            }
            return Err(IndexError::Duplicate { id: v.id.clone(), first, second: rel_path.to_owned() });
        }
        i -= 1;
    }
    let ghost before = seen_views(seen@);
    seen.push((v.id.clone(), rel_path.to_owned()));
    proof {
        assert(seen_views(seen@) =~= before.push((v.id@, rel_path@)));
    }
    Ok(v)
}

/// The number of non-empty segments of a topic path.
pub open spec fn segment_count(parts: Seq<Seq<char>>) -> nat
    decreases parts.len(),
{
    if parts.len() == 0 {
        0
    } else {
        segment_count(parts.drop_last()) + if parts.last().len() > 0 { 1nat } else { 0nat }
    }
}

/// A topic's depth: its non-empty `/`-separated segments.
pub fn topic_depth(topic: &str) -> (r: usize)
    ensures
        r == segment_count(split_char(topic@, '/')),
{
    let cs = chars_of(topic);
    let parts = split_char_exec(&cs, '/');
    let mut n: usize = 0;
    let mut i: usize = 0;
    while i < parts.len()
        invariant
            i <= parts@.len(),
            views(parts@) == split_char(topic@, '/'),
            n == segment_count(views(parts@).take(i as int)),
            n <= i,
        decreases parts@.len() - i,
    {
        proof {
            assert(views(parts@).take(i + 1).drop_last() =~= views(parts@).take(i as int));
        }
        if parts[i].len() > 0 {
            n += 1;
        }
        i += 1;
    }
    proof {
        assert(views(parts@).take(parts@.len() as int) =~= views(parts@));
    }
    n
}


/// The edges a document contributes, as `(type, target)`: its authored
/// relations in order, then a `references` edge per `[[wikilink]]` target.
/// The index keeps each distinct edge once.
pub open spec fn edges_spec(doc_rels: Seq<(Seq<char>, Seq<char>)>, links: Seq<Seq<char>>) -> Seq<(Seq<char>, Seq<char>)> {
    doc_rels + links.map_values(|t: Seq<char>| ("references"@, t))
}

/// The views of a list of edges.
pub open spec fn edge_views(v: Seq<(String, String)>) -> Seq<(Seq<char>, Seq<char>)> {
    v.map_values(|e: (String, String)| (e.0@, e.1@))
}

/// Every authored relation is an edge, every `[[wikilink]]` target `t` gives
/// the edge `("references", t)`, and there are no other edges.
pub proof fn lemma_doc_edges(doc_rels: Seq<(Seq<char>, Seq<char>)>, links: Seq<Seq<char>>)
    ensures
        edges_spec(doc_rels, links).len() == doc_rels.len() + links.len(),
        forall|e: (Seq<char>, Seq<char>)| #[trigger] doc_rels.contains(e) ==> edges_spec(doc_rels, links).contains(e),
        forall|t: Seq<char>| #[trigger] links.contains(t) ==> edges_spec(doc_rels, links).contains(("references"@, t)),
        forall|e: (Seq<char>, Seq<char>)| #[trigger] edges_spec(doc_rels, links).contains(e)
            ==> doc_rels.contains(e) || (e.0 == "references"@ && links.contains(e.1)),
{
    let es = edges_spec(doc_rels, links);
    let n = doc_rels.len();
    assert forall|e: (Seq<char>, Seq<char>)| #[trigger] doc_rels.contains(e) implies es.contains(e) by {
        let i = choose|i: int| 0 <= i < n && doc_rels[i] == e;
        assert(es[i] == e);
    }
    assert forall|t: Seq<char>| #[trigger] links.contains(t) implies es.contains(("references"@, t)) by {
        let i = choose|i: int| 0 <= i < links.len() && links[i] == t;
        assert(es[n + i] == ("references"@, t));
    }
    assert forall|e: (Seq<char>, Seq<char>)| #[trigger] es.contains(e)
        implies doc_rels.contains(e) || (e.0 == "references"@ && links.contains(e.1)) by {
        let i = choose|i: int| 0 <= i < es.len() && es[i] == e;
        if i < n {
            assert(doc_rels[i] == e);
        } else {
            assert(links[i - n] == e.1);
        }
    }
}

/// The edges a document contributes to the graph.
pub fn edges_of(doc: &ParsedDoc) -> (r: Vec<(String, String)>)
    ensures
        edge_views(r@) == edges_spec(relation_views(doc.frontmatter.relations@), str_views(doc.wikilinks@)),
        forall|t: Seq<char>| #[trigger] str_views(doc.wikilinks@).contains(t)
            ==> edge_views(r@).contains(("references"@, t)),
        forall|e: (Seq<char>, Seq<char>)| #[trigger] relation_views(doc.frontmatter.relations@).contains(e)
            ==> edge_views(r@).contains(e),
        forall|e: (Seq<char>, Seq<char>)| #[trigger] edge_views(r@).contains(e)
            ==> relation_views(doc.frontmatter.relations@).contains(e)
                || (e.0 == "references"@ && str_views(doc.wikilinks@).contains(e.1)),
{
    let rels = &doc.frontmatter.relations;
    let mut out: Vec<(String, String)> = Vec::new();
    let mut i: usize = 0;
    while i < rels.len()
        invariant
            i <= rels@.len(),
            edge_views(out@) == relation_views(rels@).take(i as int),
        decreases rels@.len() - i,
    {
        let ghost before = edge_views(out@);
        let e = (rels[i].edge_type.clone(), rels[i].target.clone());
        out.push(e);
        proof {
            assert(edge_views(out@) =~= before.push(rels@[i as int]@));
            assert(relation_views(rels@).take(i + 1) =~= relation_views(rels@).take(i as int).push(rels@[i as int]@));
        }
        i += 1;
    }
    proof {
        assert(relation_views(rels@).take(rels@.len() as int) =~= relation_views(rels@));
    }
    let ghost base = edge_views(out@);
    let links = &doc.wikilinks;
    let mut j: usize = 0;
    while j < links.len()
        invariant
            j <= links@.len(),
            edge_views(out@) == base + str_views(links@).take(j as int).map_values(|t: Seq<char>| ("references"@, t)),
        decreases links@.len() - j,
    {
        let ghost before = edge_views(out@);
        let e = ("references".to_owned(), links[j].clone());
        out.push(e);
        proof {
            assert(edge_views(out@) =~= before.push(("references"@, links@[j as int]@)));
            assert(str_views(links@).take(j + 1).map_values(|t: Seq<char>| ("references"@, t))
                =~= str_views(links@).take(j as int).map_values(|t: Seq<char>| ("references"@, t))
                    .push(("references"@, links@[j as int]@)));
        }
        j += 1;
    }
    proof {
        assert(str_views(links@).take(links@.len() as int) =~= str_views(links@));
        lemma_doc_edges(relation_views(rels@), str_views(links@));
    }
    out
}


// ---------------------------------------------------------------------------
// Incremental embedding
// ---------------------------------------------------------------------------

/// The cache key of a passage: the hex SHA-256 of its UTF-8 text.
pub open spec fn passage_hash(text: Seq<char>) -> Seq<char> {
    hex_spec(sha256_of(utf8_of(text)))
}

/// The passages whose vectors the cache holds, in order, with those vectors.
pub open spec fn cached_of(chunks: Seq<(i64, String)>, hits: Seq<Option<Vec<u8>>>) -> Seq<(i64, Seq<u8>)>
    decreases chunks.len(),
{
    if chunks.len() == 0 {
        Seq::empty()
    } else {
        let rest = cached_of(chunks.drop_last(), hits.take(chunks.len() - 1));
        match hits[chunks.len() - 1] {
            Some(v) => rest.push((chunks.last().0, v@)),
            None => rest,
        }
    }
}

/// The passages to embed, in order, each with its text and cache key.
pub open spec fn misses_of(chunks: Seq<(i64, String)>, hits: Seq<Option<Vec<u8>>>) -> Seq<(i64, Seq<char>, Seq<char>)>
    decreases chunks.len(),
{
    if chunks.len() == 0 {
        Seq::empty()
    } else {
        let rest = misses_of(chunks.drop_last(), hits.take(chunks.len() - 1));
        match hits[chunks.len() - 1] {
            Some(v) => rest,
            None => rest.push((chunks.last().0, chunks.last().1@, passage_hash(chunks.last().1@))),
        }
    }
}

/// The cache keys of all passages, in order: the entries the cache keeps.
pub open spec fn live_hashes(chunks: Seq<(i64, String)>) -> Seq<Seq<char>> {
    chunks.map_values(|c: (i64, String)| passage_hash(c.1@))
}

/// How `index` embeds: reuse the cached vectors, embed the rest.
pub struct EmbedPlan {
    /// Passages with a cached vector: id and vector bytes.
    pub cached: Vec<(i64, Vec<u8>)>,
    /// Passages to embed: id, text and cache key.
    pub misses: Vec<(i64, String, String)>,
    /// The cache key of every passage.
    pub live: Vec<String>,
    /// The vector dimension the cache implies: the first cached vector's
    /// bytes over four, or 0 when nothing is cached. It stands when nothing
    /// needs embedding; otherwise the model gives it.
    pub cached_dim: usize,
}

/// Split passages into cache hits and misses. `hits[i]` is what the cache
/// holds under passage `i`'s key.
pub fn plan_embedding(chunks: &Vec<(i64, String)>, hits: &Vec<Option<Vec<u8>>>) -> (p: EmbedPlan)
    requires
        chunks@.len() == hits@.len(),
    ensures
        p.cached@.map_values(|c: (i64, Vec<u8>)| (c.0, c.1@)) == cached_of(chunks@, hits@),
        p.misses@.map_values(|m: (i64, String, String)| (m.0, m.1@, m.2@)) == misses_of(chunks@, hits@),
        str_views(p.live@) == live_hashes(chunks@),
        p.cached_dim == (if cached_of(chunks@, hits@).len() > 0 {
            cached_of(chunks@, hits@)[0].1.len() / 4
        } else {
            0
        }),
{
    let mut cached: Vec<(i64, Vec<u8>)> = Vec::new();
    let mut misses: Vec<(i64, String, String)> = Vec::new();
    let mut live: Vec<String> = Vec::new();
    let mut i: usize = 0;
    proof {
        assert(chunks@.take(0) =~= Seq::<(i64, String)>::empty());
        assert(cached@.map_values(|c: (i64, Vec<u8>)| (c.0, c.1@)) =~= Seq::<(i64, Seq<u8>)>::empty());
        assert(misses@.map_values(|m: (i64, String, String)| (m.0, m.1@, m.2@))
            =~= Seq::<(i64, Seq<char>, Seq<char>)>::empty());
        assert(str_views(live@) =~= Seq::<Seq<char>>::empty());
    }
    while i < chunks.len()
        invariant
            i <= chunks@.len(),
            chunks@.len() == hits@.len(),
            cached@.map_values(|c: (i64, Vec<u8>)| (c.0, c.1@))
                == cached_of(chunks@.take(i as int), hits@.take(i as int)),
            misses@.map_values(|m: (i64, String, String)| (m.0, m.1@, m.2@))
                == misses_of(chunks@.take(i as int), hits@.take(i as int)),
            str_views(live@) == live_hashes(chunks@.take(i as int)),
        decreases chunks@.len() - i,
    {
        let ghost ct = chunks@.take(i + 1);
        let ghost ht = hits@.take(i + 1);
        proof {
            assert(ct.drop_last() =~= chunks@.take(i as int));
            assert(ht.take(i as int) =~= hits@.take(i as int));
            assert(ct.last() == chunks@[i as int]);
            assert(ht[i as int] == hits@[i as int]);
        }
        let id = chunks[i].0;
        let hash = content_hash(chunks[i].1.as_str());
        let ghost old_live = str_views(live@);
        live.push(hash.clone());
        proof {
            assert(str_views(live@) =~= old_live.push(passage_hash(chunks@[i as int].1@)));
            assert(live_hashes(ct) =~= live_hashes(chunks@.take(i as int)).push(passage_hash(chunks@[i as int].1@)));
        }
        match &hits[i] {
            Some(v) => {
                let ghost before = cached@.map_values(|c: (i64, Vec<u8>)| (c.0, c.1@));
                cached.push((id, v.clone()));
                proof {
                    assert(cached@.map_values(|c: (i64, Vec<u8>)| (c.0, c.1@)) =~= before.push((id, v@)));
                }
            },
            None => {
                let ghost before = misses@.map_values(|m: (i64, String, String)| (m.0, m.1@, m.2@));
                misses.push((id, chunks[i].1.clone(), hash));
                proof {
                    assert(misses@.map_values(|m: (i64, String, String)| (m.0, m.1@, m.2@))
                        =~= before.push((id, chunks@[i as int].1@, passage_hash(chunks@[i as int].1@))));
                }
            },
        }
        i += 1;
    }
    proof {
        assert(chunks@.take(i as int) =~= chunks@);
        assert(hits@.take(i as int) =~= hits@);
    }
    let cached_dim = if cached.len() > 0 {
        proof {
            assert(cached@.map_values(|c: (i64, Vec<u8>)| (c.0, c.1@))[0] == (cached@[0].0, cached@[0].1@));
        }
        cached[0].1.len() / 4
    } else {
        0
    };
    EmbedPlan { cached, misses, live, cached_dim }
}

/// Pair each passage to embed with the vector the model returned for it, as
/// `(id, cache key, vector bytes)`; `Err((vectors, passages))` when the model
/// returned another number of vectors than there were passages.
pub fn pair_vectors(misses: &Vec<(i64, String, String)>, vecs: Vec<Vec<u8>>)
    -> (r: Result<Vec<(i64, String, Vec<u8>)>, (usize, usize)>)
    ensures
        vecs@.len() != misses@.len() ==> r == Err::<Vec<(i64, String, Vec<u8>)>, (usize, usize)>(
            (vecs@.len() as usize, misses@.len() as usize)),
        vecs@.len() == misses@.len() ==> (r matches Ok(v) && v@.len() == misses@.len()
            && forall|i: int| 0 <= i < v@.len() ==> (#[trigger] v@[i]).0 == misses@[i].0
                && v@[i].1@ == misses@[i].2@ && v@[i].2@ == vecs@[i]@),
{
    if vecs.len() != misses.len() {
        return Err((vecs.len(), misses.len()));
    }
    let mut out: Vec<(i64, String, Vec<u8>)> = Vec::new();
    let mut i: usize = 0;
    while i < misses.len()
        invariant
            i <= misses@.len(),
            vecs@.len() == misses@.len(),
            out@.len() == i,
            forall|k: int| 0 <= k < i ==> (#[trigger] out@[k]).0 == misses@[k].0
                && out@[k].1@ == misses@[k].2@ && out@[k].2@ == vecs@[k]@,
        decreases misses@.len() - i,
    {
        out.push((misses[i].0, misses[i].2.clone(), vecs[i].clone()));
        i += 1;
    }
    Ok(out)
}

} // verus!
