//! Authoring: the rules behind `new` (create), `set` (update), `rm` (delete)
//! and `relocate` (move files to match the layout).
//!
//! Frontmatter is generated, never hand-written: a caller supplies fields and
//! gets a valid, reviewable document back, or the reason it was refused.

use vstd::prelude::*;
use crate::config::Layout;
use crate::model::{
    edge_types, edge_type_list, is_edge_type, opt_str, relation_views, Frontmatter, Relation,
    MAX_ALTITUDE,
};
use crate::text::{
    chars_of, char_index_from, char_index_exec, lemma_char_index_from, int_str, i64_to_string,
    join, join_exec, push_str, slice_of, str_views, string_of, trim, trim_bounds, trim_end_char,
    trim_start_char, trim_end_char_bound, trim_start_char_bound,
};
use crate::registry::copy_opt;
use crate::text::{copy_strings, without};
use crate::parse::{contains_str, ParsedDoc};
use crate::text::{sort_dedup, lex_lt, lex_lt_exec, seq_eq, usize_to_string, decimal};
use crate::model::FrontmatterView;

verus! {

// ---------------------------------------------------------------------------
// File placement
// ---------------------------------------------------------------------------

/// The first topic without surrounding slashes, when there is a non-empty one.
pub open spec fn topic_segment(topics: Seq<Seq<char>>) -> Option<Seq<char>> {
    if topics.len() == 0 {
        None
    } else {
        let t = trim_end_char(trim_start_char(topics[0], '/'), '/');
        if t.len() > 0 { Some(t) } else { None }
    }
}

/// Where a document's file lives under the docs root, per the layout.
pub open spec fn doc_rel_path_spec(layout: Layout, id: Seq<char>, altitude: Option<i64>, topics: Seq<Seq<char>>) -> Seq<char> {
    let file = id + ".md"@;
    let dir: Option<Seq<char>> = match layout {
        Layout::Flat => None,
        Layout::Topic => topic_segment(topics),
        Layout::Altitude => match altitude {
            Some(n) => if n >= 1 { Some(int_str(n as int)) } else { None },
            None => None,
        },
    };
    match dir {
        Some(d) => d + "/"@ + file,
        None => file,
    }
}

/// Where a document's file lives under the docs root, per the configured
/// layout. `id` is the identity regardless; this only organizes files.
pub fn doc_rel_path(layout: Layout, id: &str, altitude: Option<i64>, topics: &[String]) -> (r: String)
    ensures
        r@ == doc_rel_path_spec(layout, id@, altitude, str_views(topics@)),
{
    let mut file: Vec<char> = Vec::new();
    push_str(&mut file, id);
    push_str(&mut file, ".md");
    let dir: Option<String> = match layout {
        Layout::Flat => None,
        Layout::Topic => {
            if topics.len() == 0 {
                None
            } else {
                let t = chars_of(topics[0].as_str());
                let a = trim_start_char_bound(&t, 0, t.len(), '/');
                let b = trim_end_char_bound(&t, a, t.len(), '/');
                proof {
                    assert(t@.subrange(0, t@.len() as int) =~= t@);
                    assert(str_views(topics@)[0] == t@);
                }
                if b > a {
                    Some(string_of(&slice_of(&t, a, b)))
                } else {
                    None
                }
            }
        },
        Layout::Altitude => match altitude {
            Some(n) => if n >= 1 {
                Some(i64_to_string(n))
            } else {
                None
            },
            None => None,
        },
    };
    let mut out: Vec<char> = Vec::new();
    match dir {
        Some(d) => {
            push_str(&mut out, d.as_str());
            push_str(&mut out, "/");
        },
        None => {},
    }
    crate::text::push_all(&mut out, &file);
    string_of(&out)
}

// ---------------------------------------------------------------------------
// Ids and relations
// ---------------------------------------------------------------------------

/// An id character: a lowercase ASCII letter, a digit or a hyphen.
pub open spec fn is_id_char(c: char) -> bool {
    ('a' <= c && c <= 'z') || ('0' <= c && c <= '9') || c == '-'
}

/// A stable identifier: non-empty kebab-case.
pub open spec fn is_valid_id(id: Seq<char>) -> bool {
    &&& id.len() > 0
    &&& forall|i: int| 0 <= i < id.len() ==> is_id_char(#[trigger] id[i])
    &&& id[0] != '-'
    &&& id.last() != '-'
}

/// Why an id was refused.
pub enum IdError {
    Empty,
    NotKebab(String),
}

impl IdError {
    /// The error as the user reads it.
    pub fn message(&self) -> (r: String)
        ensures
            match self {
                IdError::Empty => r@ == "id cannot be empty"@,
                IdError::NotKebab(id) => r@ == "id `"@ + id@
                    + "` must be kebab-case (lowercase letters, digits, hyphens)"@,
            },
    {
        match self {
            IdError::Empty => "id cannot be empty".to_owned(),
            IdError::NotKebab(id) => {
                let mut out: Vec<char> = Vec::new();
                push_str(&mut out, "id `");
                push_str(&mut out, id.as_str());
                push_str(&mut out, "` must be kebab-case (lowercase letters, digits, hyphens)");
                string_of(&out)
            },
        }
    }
}

/// Ids are stable identifiers: lowercase letters, digits and hyphens, not
/// starting or ending with a hyphen.
pub fn validate_id(id: &str) -> (r: Result<(), IdError>)
    ensures
        id@.len() == 0 ==> r matches Err(IdError::Empty),
        id@.len() > 0 && is_valid_id(id@) ==> r is Ok,
        id@.len() > 0 && !is_valid_id(id@) ==> (r matches Err(IdError::NotKebab(s)) && s@ == id@),
{
    let cs = chars_of(id);
    if cs.len() == 0 {
        return Err(IdError::Empty);
    }
    let mut i: usize = 0;
    while i < cs.len()
        invariant
            i <= cs@.len(),
            cs@ == id@,
            forall|j: int| 0 <= j < i ==> is_id_char(#[trigger] cs@[j]),
        decreases cs@.len() - i,
    {
        let c = cs[i];
        if !(('a' <= c && c <= 'z') || ('0' <= c && c <= '9') || c == '-') {
            return Err(IdError::NotKebab(id.to_owned()));
        }
        i += 1;
    }
    if cs[0] == '-' || cs[cs.len() - 1] == '-' {
        return Err(IdError::NotKebab(id.to_owned()));
    }
    Ok(())
}

/// Why a `type:target` relation argument was refused.
pub enum RelationError {
    /// No `:` in the argument.
    NoColon(String),
    /// The type is not one of the relation kinds.
    UnknownType(String),
    /// Nothing after the `:`.
    EmptyTarget(String),
}

impl RelationError {
    /// The error as the user reads it.
    pub fn message(&self) -> (r: String)
        ensures
            match self {
                RelationError::NoColon(raw) => r@ == "relation `"@ + raw@
                    + "` must be in the form `type:target`"@,
                RelationError::UnknownType(t) => r@ == "unknown relation type `"@ + t@
                    + "` (expected one of: "@ + join(edge_types(), ", "@) + ")"@,
                RelationError::EmptyTarget(raw) => r@ == "relation `"@ + raw@ + "` has an empty target"@,
            },
    {
        let mut out: Vec<char> = Vec::new();
        match self {
            RelationError::NoColon(raw) => {
                push_str(&mut out, "relation `");
                push_str(&mut out, raw.as_str());
                push_str(&mut out, "` must be in the form `type:target`");
            },
            RelationError::UnknownType(t) => {
                push_str(&mut out, "unknown relation type `");
                push_str(&mut out, t.as_str());
                push_str(&mut out, "` (expected one of: ");
                let list = edge_type_list();
                push_str(&mut out, list.as_str());
                push_str(&mut out, ")");
            },
            RelationError::EmptyTarget(raw) => {
                push_str(&mut out, "relation `");
                push_str(&mut out, raw.as_str());
                push_str(&mut out, "` has an empty target");
            },
        }
        string_of(&out)
    }
}

/// The outcome of reading one `type:target` argument: the relation, or the
/// error (0: no colon, 1: unknown type, 2: empty target) and its subject.
pub open spec fn relation_of(raw: Seq<char>) -> Result<(Seq<char>, Seq<char>), (int, Seq<char>)> {
    let c = char_index_from(raw, ':', 0);
    if c >= raw.len() {
        Err((0, raw))
    } else {
        let t = trim(raw.take(c));
        let g = trim(raw.skip(c + 1));
        if !edge_types().contains(t) {
            Err((1, t))
        } else if g.len() == 0 {
            Err((2, raw))
        } else {
            Ok((t, g))
        }
    }
}

/// The relations of a list of arguments, or the first argument's error.
pub open spec fn relations_of(raw: Seq<Seq<char>>) -> Result<Seq<(Seq<char>, Seq<char>)>, (int, Seq<char>)>
    decreases raw.len(),
{
    if raw.len() == 0 {
        Ok(Seq::empty())
    } else {
        match relations_of(raw.drop_last()) {
            Err(e) => Err(e),
            Ok(rs) => match relation_of(raw.last()) {
                Err(e) => Err(e),
                Ok(r) => Ok(rs.push(r)),
            },
        }
    }
}

/// The model of a relation error.
pub open spec fn relation_error_view(e: RelationError) -> (int, Seq<char>) {
    match e {
        RelationError::NoColon(s) => (0, s@),
        RelationError::UnknownType(s) => (1, s@),
        RelationError::EmptyTarget(s) => (2, s@),
    }
}

fn parse_relation(raw: &str) -> (r: Result<Relation, RelationError>)
    ensures
        match r {
            Ok(rel) => relation_of(raw@) == Ok::<_, (int, Seq<char>)>(rel@),
            Err(e) => relation_of(raw@) == Err::<(Seq<char>, Seq<char>), _>(relation_error_view(e)),
        },
{
    let cs = chars_of(raw);
    let c = char_index_exec(&cs, ':', 0);
    proof {
        lemma_char_index_from(cs@, ':', 0);
    }
    if c >= cs.len() {
        return Err(RelationError::NoColon(raw.to_owned()));
    }
    let (a, b) = trim_bounds(&cs, 0, c);
    let (d, e) = trim_bounds(&cs, c + 1, cs.len());
    proof {
        assert(cs@.take(c as int) =~= cs@.subrange(0, c as int));
        assert(cs@.skip(c + 1) =~= cs@.subrange(c + 1, cs@.len() as int));
    }
    let t = string_of(&slice_of(&cs, a, b));
    let g = string_of(&slice_of(&cs, d, e));
    if !is_edge_type(t.as_str()) {
        return Err(RelationError::UnknownType(t));
    }
    if e == d {
        return Err(RelationError::EmptyTarget(raw.to_owned()));
    }
    Ok(Relation { edge_type: t, target: g })
}

/// Read `type:target` arguments into relations; the first bad argument is
/// the error.
pub fn parse_relations(raw: &[String]) -> (r: Result<Vec<Relation>, RelationError>)
    ensures
        match r {
            Ok(v) => relations_of(str_views(raw@)) == Ok::<_, (int, Seq<char>)>(relation_views(v@)),
            Err(e) => relations_of(str_views(raw@)) == Err::<Seq<(Seq<char>, Seq<char>)>, _>(relation_error_view(e)),
        },
{
    let mut out: Vec<Relation> = Vec::new();
    let ghost rv = str_views(raw@);
    let mut i: usize = 0;
    proof {
        assert(rv.take(0) =~= Seq::<Seq<char>>::empty());
        assert(relation_views(out@) =~= Seq::<(Seq<char>, Seq<char>)>::empty());
    }
    while i < raw.len()
        invariant
            i <= raw@.len(),
            rv == str_views(raw@),
            relations_of(rv.take(i as int)) == Ok::<_, (int, Seq<char>)>(relation_views(out@)),
        decreases raw@.len() - i,
    {
        proof {
            assert(rv.take(i + 1).drop_last() =~= rv.take(i as int));
            assert(rv.take(i + 1).last() == raw@[i as int]@);
        }
        match parse_relation(raw[i].as_str()) {
            Ok(rel) => {
                let ghost before = relation_views(out@);
                out.push(rel);
                proof {
                    assert(relation_views(out@) =~= before.push(rel@));
                }
            },
            Err(e) => {
                proof {
                    lemma_relations_of_err(rv, i as int);
                }
                return Err(e);
            },
        }
        i += 1;
    }
    proof {
        assert(rv.take(i as int) =~= rv);
    }
    Ok(out)
}

/// An error at some argument is the error of every longer list.
proof fn lemma_relations_of_err(rv: Seq<Seq<char>>, i: int)
    requires
        0 <= i < rv.len(),
        relations_of(rv.take(i + 1)) is Err,
    ensures
        relations_of(rv) == relations_of(rv.take(i + 1)),
    decreases rv.len(),
{
    if i + 1 < rv.len() {
        assert(rv.drop_last().take(i + 1) =~= rv.take(i + 1));
        lemma_relations_of_err(rv.drop_last(), i);
    } else {
        assert(rv.take(i + 1) =~= rv);
    }
}


// ---------------------------------------------------------------------------
// Creating and updating frontmatter
// ---------------------------------------------------------------------------

/// Why an authoring request was refused.
pub enum AuthorError {
    Id(IdError),
    /// An altitude outside `0..=MAX_ALTITUDE`.
    AltitudeOutOfRange(i64),
    /// `new` without a topic.
    NoTopic,
    Relation(RelationError),
    /// `set` would leave the document without a topic.
    LastTopic,
}

impl AuthorError {
    /// The error as the user reads it.
    pub fn message(&self) -> (r: String)
        ensures
            match self {
                AuthorError::Id(e) => r@ == match e {
                    IdError::Empty => "id cannot be empty"@,
                    IdError::NotKebab(id) => "id `"@ + id@
                        + "` must be kebab-case (lowercase letters, digits, hyphens)"@,
                },
                AuthorError::AltitudeOutOfRange(a) => r@ == "altitude "@ + int_str(*a as int)
                    + " out of range 0..=3"@,
                AuthorError::NoTopic => r@ == "at least one --topic is required"@,
                AuthorError::Relation(e) => r@ == match e {
                    RelationError::NoColon(raw) => "relation `"@ + raw@
                        + "` must be in the form `type:target`"@,
                    RelationError::UnknownType(t) => "unknown relation type `"@ + t@
                        + "` (expected one of: "@ + join(edge_types(), ", "@) + ")"@,
                    RelationError::EmptyTarget(raw) => "relation `"@ + raw@ + "` has an empty target"@,
                },
                AuthorError::LastTopic => r@ == "a document must keep at least one topic"@,
            },
    {
        match self {
            AuthorError::Id(e) => e.message(),
            AuthorError::AltitudeOutOfRange(a) => {
                let mut out: Vec<char> = Vec::new();
                push_str(&mut out, "altitude ");
                let n = i64_to_string(*a);
                push_str(&mut out, n.as_str());
                push_str(&mut out, " out of range 0..=3");
                string_of(&out)
            },
            AuthorError::NoTopic => "at least one --topic is required".to_owned(),
            AuthorError::Relation(e) => e.message(),
            AuthorError::LastTopic => "a document must keep at least one topic".to_owned(),
        }
    }
}

/// The fields of a new document.
pub struct NewArgs {
    pub id: String,
    pub title: String,
    pub altitude: i64,
    pub topics: Vec<String>,
    /// Raw `type:target` relations.
    pub relations: Vec<String>,
    pub summary: Option<String>,
    /// File path relative to the docs root (default: per the layout).
    pub path: Option<String>,
    /// Body text (otherwise a scaffold, or stdin).
    pub body: Option<String>,
    pub stdin: bool,
    pub force: bool,
}

/// An altitude within `0..=MAX_ALTITUDE`.
pub open spec fn altitude_ok(a: i64) -> bool {
    0 <= a <= MAX_ALTITUDE
}

/// The frontmatter `new` writes, or the first rule the request breaks: the id,
/// then the altitude, then the topics, then the relations.
pub fn new_frontmatter(args: &NewArgs) -> (r: Result<Frontmatter, AuthorError>)
    ensures
        args.id@.len() == 0 ==> (r matches Err(AuthorError::Id(IdError::Empty))),
        args.id@.len() > 0 && !is_valid_id(args.id@) ==> (r matches Err(AuthorError::Id(IdError::NotKebab(s)))
            && s@ == args.id@),
        is_valid_id(args.id@) && !altitude_ok(args.altitude) ==> (r matches Err(
            AuthorError::AltitudeOutOfRange(a),
        ) && a == args.altitude),
        is_valid_id(args.id@) && altitude_ok(args.altitude) && args.topics@.len() == 0 ==> (r matches Err(AuthorError::NoTopic)),
        is_valid_id(args.id@) && altitude_ok(args.altitude) && args.topics@.len() > 0 ==> match relations_of(str_views(args.relations@)) {
            Err(ev) => r matches Err(AuthorError::Relation(e)) && relation_error_view(e) == ev,
            Ok(rels) => r matches Ok(fm) && fm@ == (
                Some(args.id@),
                Some(args.title@),
                Some(args.altitude),
                str_views(args.topics@),
                rels,
                opt_str(args.summary),
            ),
        },
{
    match validate_id(args.id.as_str()) {
        Err(e) => return Err(AuthorError::Id(e)),
        Ok(()) => {},
    }
    if !(0 <= args.altitude && args.altitude <= MAX_ALTITUDE) {
        return Err(AuthorError::AltitudeOutOfRange(args.altitude));
    }
    if args.topics.len() == 0 {
        return Err(AuthorError::NoTopic);
    }
    let relations = match parse_relations(args.relations.as_slice()) {
        Err(e) => return Err(AuthorError::Relation(e)),
        Ok(v) => v,
    };
    Ok(Frontmatter {
        id: Some(args.id.clone()),
        title: Some(args.title.clone()),
        altitude: Some(args.altitude),
        topics: copy_strings(&args.topics),
        relations,
        summary: copy_opt(&args.summary),
    })
}

/// The scaffold body of a new document: its title as a heading.
pub fn scaffold_body(title: &str) -> (r: String)
    ensures
        r@ == "# "@ + title@ + "\n"@,
{
    let mut out: Vec<char> = Vec::new();
    push_str(&mut out, "# ");
    push_str(&mut out, title);
    push_str(&mut out, "\n");
    string_of(&out)
}

/// The changes `set` applies to a document.
pub struct SetArgs {
    pub id: String,
    pub title: Option<String>,
    pub altitude: Option<i64>,
    /// The new summary; an empty one clears it.
    pub summary: Option<String>,
    pub add_topics: Vec<String>,
    pub remove_topics: Vec<String>,
    /// Raw `type:target` relations.
    pub add_relations: Vec<String>,
    pub remove_relations: Vec<String>,
    pub body_stdin: bool,
}

/// `ts` without each of `rs`.
pub open spec fn remove_each<T>(ts: Seq<T>, rs: Seq<T>) -> Seq<T>
    decreases rs.len(),
{
    if rs.len() == 0 {
        ts
    } else {
        without(remove_each(ts, rs.drop_last()), rs.last())
    }
}

/// `ts` with each of `adds` appended unless already present.
pub open spec fn add_each<T>(ts: Seq<T>, adds: Seq<T>) -> Seq<T>
    decreases adds.len(),
{
    if adds.len() == 0 {
        ts
    } else {
        let r = add_each(ts, adds.drop_last());
        if r.contains(adds.last()) { r } else { r.push(adds.last()) }
    }
}

/// The frontmatter after `set`, or the first rule the update breaks: the
/// altitude, then keeping a topic, then the relations to remove, then those
/// to add.
pub open spec fn set_spec(
    fm: FrontmatterView,
    title: Option<Seq<char>>,
    altitude: Option<i64>,
    summary: Option<Seq<char>>,
    add_topics: Seq<Seq<char>>,
    remove_topics: Seq<Seq<char>>,
    add_relations: Seq<Seq<char>>,
    remove_relations: Seq<Seq<char>>,
) -> Result<FrontmatterView, (int, int, Seq<char>)> {
    let title2 = match title {
        Some(t) => Some(t),
        None => fm.1,
    };
    let summary2 = match summary {
        Some(s) => if s.len() == 0 { None } else { Some(s) },
        None => fm.5,
    };
    let topics = add_each(remove_each(fm.3, remove_topics), add_topics);
    if altitude matches Some(a) && !altitude_ok(a) {
        Err((0, altitude.unwrap() as int, Seq::empty()))
    } else if topics.len() == 0 {
        Err((1, 0, Seq::empty()))
    } else {
        match relations_of(remove_relations) {
            Err(e) => Err((2, e.0, e.1)),
            Ok(rr) => match relations_of(add_relations) {
                Err(e) => Err((2, e.0, e.1)),
                Ok(ar) => Ok((
                    fm.0,
                    title2,
                    match altitude {
                        Some(a) => Some(a),
                        None => fm.2,
                    },
                    topics,
                    add_each(remove_each(fm.4, rr), ar),
                    summary2,
                )),
            },
        }
    }
}

/// The model of an authoring error from `set`.
pub open spec fn set_error_view(e: AuthorError) -> (int, int, Seq<char>) {
    match e {
        AuthorError::AltitudeOutOfRange(a) => (0, a as int, Seq::empty()),
        AuthorError::LastTopic => (1, 0, Seq::empty()),
        AuthorError::Relation(re) => (2, relation_error_view(re).0, relation_error_view(re).1),
        _ => (3, 0, Seq::empty()),
    }
}

fn remove_topics_exec(ts: Vec<String>, rs: &Vec<String>) -> (r: Vec<String>)
    ensures
        str_views(r@) == remove_each(str_views(ts@), str_views(rs@)),
{
    let mut cur = ts;
    let mut i: usize = 0;
    let ghost base = str_views(cur@);
    proof {
        assert(str_views(rs@).take(0) =~= Seq::<Seq<char>>::empty());
    }
    while i < rs.len()
        invariant
            i <= rs@.len(),
            str_views(cur@) == remove_each(base, str_views(rs@).take(i as int)),
        decreases rs@.len() - i,
    {
        let mut next: Vec<String> = Vec::new();
        let mut j: usize = 0;
        let ghost c = str_views(cur@);
        proof {
            assert(c.take(0) =~= Seq::<Seq<char>>::empty());
            assert(str_views(next@) =~= Seq::<Seq<char>>::empty());
        }
        while j < cur.len()
            invariant
                j <= cur@.len(),
                i < rs@.len(),
                c == str_views(cur@),
                str_views(next@) == without(c.take(j as int), rs@[i as int]@),
            decreases cur@.len() - j,
        {
            proof {
                assert(c.take(j + 1).drop_last() =~= c.take(j as int));
                assert(c.take(j + 1).last() == cur@[j as int]@);
            }
            if cur[j] != rs[i] {
                let ghost before = str_views(next@);
                next.push(cur[j].clone());
                proof {
                    assert(str_views(next@) =~= before.push(cur@[j as int]@));
                }
            }
            j += 1;
        }
        proof {
            assert(c.take(j as int) =~= c);
            let t = str_views(rs@).take(i + 1);
            assert(t.drop_last() =~= str_views(rs@).take(i as int));
            assert(t.last() == rs@[i as int]@);
        }
        cur = next;
        i += 1;
    }
    proof {
        assert(str_views(rs@).take(i as int) =~= str_views(rs@));
    }
    cur
}

fn add_topics_exec(ts: Vec<String>, adds: &Vec<String>) -> (r: Vec<String>)
    ensures
        str_views(r@) == add_each(str_views(ts@), str_views(adds@)),
{
    let mut cur = ts;
    let ghost base = str_views(cur@);
    let mut i: usize = 0;
    proof {
        assert(str_views(adds@).take(0) =~= Seq::<Seq<char>>::empty());
    }
    while i < adds.len()
        invariant
            i <= adds@.len(),
            str_views(cur@) == add_each(base, str_views(adds@).take(i as int)),
        decreases adds@.len() - i,
    {
        proof {
            let t = str_views(adds@).take(i + 1);
            assert(t.drop_last() =~= str_views(adds@).take(i as int));
            assert(t.last() == adds@[i as int]@);
        }
        if !contains_str(&cur, &adds[i]) {
            let ghost before = str_views(cur@);
            cur.push(adds[i].clone());
            proof {
                assert(str_views(cur@) =~= before.push(adds@[i as int]@));
            }
        }
        i += 1;
    }
    proof {
        assert(str_views(adds@).take(i as int) =~= str_views(adds@));
    }
    cur
}

fn same_relation(a: &Relation, b: &Relation) -> (r: bool)
    ensures
        r == (a@ == b@),
{
    a.edge_type == b.edge_type && a.target == b.target
}

fn remove_relations_exec(ts: Vec<Relation>, rs: &Vec<Relation>) -> (r: Vec<Relation>)
    ensures
        relation_views(r@) == remove_each(relation_views(ts@), relation_views(rs@)),
{
    let mut cur = ts;
    let mut i: usize = 0;
    let ghost base = relation_views(cur@);
    proof {
        assert(relation_views(rs@).take(0) =~= Seq::<(Seq<char>, Seq<char>)>::empty());
    }
    while i < rs.len()
        invariant
            i <= rs@.len(),
            relation_views(cur@) == remove_each(base, relation_views(rs@).take(i as int)),
        decreases rs@.len() - i,
    {
        let mut next: Vec<Relation> = Vec::new();
        let mut j: usize = 0;
        let ghost c = relation_views(cur@);
        proof {
            assert(c.take(0) =~= Seq::<(Seq<char>, Seq<char>)>::empty());
            assert(relation_views(next@) =~= Seq::<(Seq<char>, Seq<char>)>::empty());
        }
        while j < cur.len()
            invariant
                j <= cur@.len(),
                i < rs@.len(),
                c == relation_views(cur@),
                relation_views(next@) == without(c.take(j as int), rs@[i as int]@),
            decreases cur@.len() - j,
        {
            proof {
                assert(c.take(j + 1).drop_last() =~= c.take(j as int));
                assert(c.take(j + 1).last() == cur@[j as int]@);
            }
            if !same_relation(&cur[j], &rs[i]) {
                let ghost before = relation_views(next@);
                next.push(cur[j].copy());
                proof {
                    assert(relation_views(next@) =~= before.push(cur@[j as int]@));
                }
            }
            j += 1;
        }
        proof {
            assert(c.take(j as int) =~= c);
            let t = relation_views(rs@).take(i + 1);
            assert(t.drop_last() =~= relation_views(rs@).take(i as int));
            assert(t.last() == rs@[i as int]@);
        }
        cur = next;
        i += 1;
    }
    proof {
        assert(relation_views(rs@).take(i as int) =~= relation_views(rs@));
    }
    cur
}

fn contains_relation(v: &Vec<Relation>, x: &Relation) -> (b: bool)
    ensures
        b == relation_views(v@).contains(x@),
{
    let mut i: usize = 0;
    while i < v.len()
        invariant
            i <= v@.len(),
            forall|j: int| 0 <= j < i ==> v@[j]@ != x@,
        decreases v@.len() - i,
    {
        if same_relation(&v[i], x) {
            assert(relation_views(v@)[i as int] == x@);
            return true;
        }
        i += 1;
    }
    proof {
        if relation_views(v@).contains(x@) {
            let j = choose|j: int| 0 <= j < relation_views(v@).len() && relation_views(v@)[j] == x@;
            assert(v@[j]@ == x@);
        }
    }
    false
}

fn add_relations_exec(ts: Vec<Relation>, adds: Vec<Relation>) -> (r: Vec<Relation>)
    ensures
        relation_views(r@) == add_each(relation_views(ts@), relation_views(adds@)),
{
    let mut cur = ts;
    let ghost base = relation_views(cur@);
    let mut i: usize = 0;
    proof {
        assert(relation_views(adds@).take(0) =~= Seq::<(Seq<char>, Seq<char>)>::empty());
    }
    while i < adds.len()
        invariant
            i <= adds@.len(),
            relation_views(cur@) == add_each(base, relation_views(adds@).take(i as int)),
        decreases adds@.len() - i,
    {
        proof {
            let t = relation_views(adds@).take(i + 1);
            assert(t.drop_last() =~= relation_views(adds@).take(i as int));
            assert(t.last() == adds@[i as int]@);
        }
        if !contains_relation(&cur, &adds[i]) {
            let ghost before = relation_views(cur@);
            cur.push(adds[i].copy());
            proof {
                assert(relation_views(cur@) =~= before.push(adds@[i as int]@));
            }
        }
        i += 1;
    }
    proof {
        assert(relation_views(adds@).take(i as int) =~= relation_views(adds@));
    }
    cur
}

/// Apply `set`'s changes to a document's frontmatter.
pub fn apply_set(fm: Frontmatter, args: &SetArgs) -> (r: Result<Frontmatter, AuthorError>)
    ensures
        match set_spec(
            fm@,
            opt_str(args.title),
            args.altitude,
            opt_str(args.summary),
            str_views(args.add_topics@),
            str_views(args.remove_topics@),
            str_views(args.add_relations@),
            str_views(args.remove_relations@),
        ) {
            Ok(v) => r matches Ok(f) && f@ == v,
            Err(ev) => r matches Err(e) && set_error_view(e) == ev,
        },
{
    let ghost old_fm = fm@;
    let Frontmatter { id, title, altitude, topics, relations, summary } = fm;
    let title2 = match &args.title {
        Some(t) => Some(t.clone()),
        None => title,
    };
    let altitude2 = match args.altitude {
        Some(a) => {
            if !(0 <= a && a <= MAX_ALTITUDE) {
                return Err(AuthorError::AltitudeOutOfRange(a));
            }
            Some(a)
        },
        None => altitude,
    };
    let summary2 = match &args.summary {
        Some(s) => if s.as_str().is_empty() {
            None
        } else {
            Some(s.clone())
        },
        None => summary,
    };
    let t1 = remove_topics_exec(topics, &args.remove_topics);
    let t2 = add_topics_exec(t1, &args.add_topics);
    if t2.len() == 0 {
        return Err(AuthorError::LastTopic);
    }
    let rr = match parse_relations(args.remove_relations.as_slice()) {
        Err(e) => return Err(AuthorError::Relation(e)),
        Ok(v) => v,
    };
    let ar = match parse_relations(args.add_relations.as_slice()) {
        Err(e) => return Err(AuthorError::Relation(e)),
        Ok(v) => v,
    };
    let r1 = remove_relations_exec(relations, &rr);
    let r2 = add_relations_exec(r1, ar);
    Ok(Frontmatter { id, title: title2, altitude: altitude2, topics: t2, relations: r2, summary: summary2 })
}


// ---------------------------------------------------------------------------
// Finding documents and their referrers
// ---------------------------------------------------------------------------

/// The first document whose frontmatter id is `id`.
pub open spec fn doc_index(docs: Seq<ParsedDoc>, id: Seq<char>) -> Option<int>
    decreases docs.len(),
{
    if docs.len() == 0 {
        None
    } else if opt_str(docs[0].frontmatter.id) == Some(id) {
        Some(0)
    } else {
        match doc_index(docs.drop_first(), id) {
            Some(i) => Some(i + 1),
            None => None,
        }
    }
}

/// The index of the first document with id `id`.
pub fn find_doc_by_id(docs: &Vec<ParsedDoc>, id: &str) -> (r: Option<usize>)
    ensures
        match r {
            Some(i) => doc_index(docs@, id@) == Some(i as int),
            None => doc_index(docs@, id@) is None,
        },
{
    let key = id.to_owned();
    let mut i: usize = 0;
    proof {
        assert(docs@.skip(0) =~= docs@);
        assert(crate::registry::shift(doc_index(docs@, id@), 0) == doc_index(docs@, id@));
    }
    while i < docs.len()
        invariant
            i <= docs@.len(),
            key@ == id@,
            doc_index(docs@, id@) == crate::registry::shift(doc_index(docs@.skip(i as int), id@), i as int),
        decreases docs@.len() - i,
    {
        proof {
            assert(docs@.skip(i as int)[0] == docs@[i as int]);
            assert(docs@.skip(i as int).drop_first() =~= docs@.skip(i + 1));
        }
        let hit = match &docs[i].frontmatter.id {
            Some(x) => *x == key,
            None => false,
        };
        if hit {
            return Some(i);
        }
        i += 1;
    }
    proof {
        assert(docs@.skip(i as int) =~= Seq::<ParsedDoc>::empty());
    }
    None
}

/// Whether a document points at `id` by a relation or a wikilink.
pub open spec fn refers_to(d: ParsedDoc, id: Seq<char>) -> bool {
    (exists|j: int| 0 <= j < d.frontmatter.relations@.len() && #[trigger] d.frontmatter.relations@[j].target@ == id)
        || str_views(d.wikilinks@).contains(id)
}

/// A document's own id, or empty when it has none.
pub open spec fn self_id(d: ParsedDoc) -> Seq<char> {
    match d.frontmatter.id {
        Some(x) => x@,
        None => Seq::empty(),
    }
}

/// The ids of the documents (other than `id` itself) that point at `id`, in
/// first-seen order without repeats.
pub open spec fn referrers(docs: Seq<ParsedDoc>, id: Seq<char>) -> Seq<Seq<char>>
    decreases docs.len(),
{
    if docs.len() == 0 {
        Seq::empty()
    } else {
        let r = referrers(docs.drop_last(), id);
        let d = docs.last();
        if self_id(d) != id && refers_to(d, id) && !r.contains(self_id(d)) {
            r.push(self_id(d))
        } else {
            r
        }
    }
}

/// A document other than `id` that names `id` as a wikilink target or as a
/// relation target is among `id`'s referrers, and every referrer is such a
/// document: the referrers are exactly the documents whose links to `id`
/// would dangle if `id` were removed.
pub proof fn lemma_referrers_exact(docs: Seq<ParsedDoc>, id: Seq<char>, x: Seq<char>)
    ensures
        sort_dedup(referrers(docs, id)).contains(x) <==> exists|k: int| 0 <= k < docs.len()
            && #[trigger] self_id(docs[k]) == x && x != id && (str_views(docs[k].wikilinks@).contains(id)
            || exists|j: int| 0 <= j < docs[k].frontmatter.relations@.len()
                && #[trigger] docs[k].frontmatter.relations@[j].target@ == id),
    decreases docs.len(),
{
    crate::text::lemma_sort_dedup_contains(referrers(docs, id), x);
    if docs.len() > 0 {
        let d0 = docs.drop_last();
        let n = docs.len() - 1;
        lemma_referrers_exact(d0, id, x);
        crate::text::lemma_sort_dedup_contains(referrers(d0, id), x);
        let r0 = referrers(d0, id);
        let r = referrers(docs, id);
        assert(r0.contains(x) ==> r.contains(x)) by {
            if r0.contains(x) {
                let i = choose|i: int| 0 <= i < r0.len() && r0[i] == x;
                if r != r0 {
                    assert(r[i] == x);
                }
            }
        }
        if r.contains(x) && !r0.contains(x) {
            assert(r != r0);
            assert(r == r0.push(self_id(docs[n])));
            let i = choose|i: int| 0 <= i < r.len() && r[i] == x;
            if i < r0.len() {
                assert(r0[i] == x);
            }
            assert(self_id(docs[n]) == x);
            assert(refers_to(docs[n], id));
        }
        if exists|k: int| 0 <= k < docs.len()
            && #[trigger] self_id(docs[k]) == x && x != id && (str_views(docs[k].wikilinks@).contains(id)
            || exists|j: int| 0 <= j < docs[k].frontmatter.relations@.len()
                && #[trigger] docs[k].frontmatter.relations@[j].target@ == id) {
            let k = choose|k: int| 0 <= k < docs.len()
                && #[trigger] self_id(docs[k]) == x && x != id && (str_views(docs[k].wikilinks@).contains(id)
                || exists|j: int| 0 <= j < docs[k].frontmatter.relations@.len()
                    && #[trigger] docs[k].frontmatter.relations@[j].target@ == id);
            if k < n {
                assert(d0[k] == docs[k]);
            } else {
                assert(refers_to(docs[n], id));
                if !r0.contains(x) {
                    assert(r == r0.push(x));
                    assert(r[r0.len() as int] == x);
                }
            }
        }
        if r0.contains(x) {
            let k = choose|k: int| 0 <= k < d0.len()
                && #[trigger] self_id(d0[k]) == x && x != id && (str_views(d0[k].wikilinks@).contains(id)
                || exists|j: int| 0 <= j < d0[k].frontmatter.relations@.len()
                    && #[trigger] d0[k].frontmatter.relations@[j].target@ == id);
            assert(docs[k] == d0[k]);
        }
    }
}

fn doc_refers_to(d: &ParsedDoc, id: &String) -> (b: bool)
    ensures
        b == refers_to(*d, id@),
{
    let mut j: usize = 0;
    while j < d.frontmatter.relations.len()
        invariant
            j <= d.frontmatter.relations@.len(),
            forall|k: int| 0 <= k < j ==> d.frontmatter.relations@[k].target@ != id@,
        decreases d.frontmatter.relations@.len() - j,
    {
        if d.frontmatter.relations[j].target == *id {
            assert(d.frontmatter.relations@[j as int].target@ == id@);
            return true;
        }
        j += 1;
    }
    let r = contains_str(&d.wikilinks, id);
    proof {
        if exists|k: int| 0 <= k < d.frontmatter.relations@.len() && #[trigger] d.frontmatter.relations@[k].target@ == id@ {
            let k = choose|k: int| 0 <= k < d.frontmatter.relations@.len() && #[trigger] d.frontmatter.relations@[k].target@ == id@;
            assert(d.frontmatter.relations@[k].target@ != id@);
        }
    }
    r
}

/// The ids of the documents whose relations or wikilinks target `id`,
/// sorted: the edges that would dangle if `id` were removed.
pub fn inbound_referrers(docs: &Vec<ParsedDoc>, id: &str) -> (r: Vec<String>)
    ensures
        str_views(r@) == sort_dedup(referrers(docs@, id@)),
        forall|k: int| 0 <= k < docs@.len() && self_id(docs@[k]) != id@ && (str_views(
            docs@[k].wikilinks@,
        ).contains(id@) || exists|j: int| 0 <= j < docs@[k].frontmatter.relations@.len()
            && #[trigger] docs@[k].frontmatter.relations@[j].target@ == id@)
            ==> str_views(r@).contains(#[trigger] self_id(docs@[k])),
{
    let key = id.to_owned();
    let mut refs: Vec<String> = Vec::new();
    let mut i: usize = 0;
    proof {
        assert(docs@.take(0) =~= Seq::<ParsedDoc>::empty());
        assert(str_views(refs@) =~= Seq::<Seq<char>>::empty());
    }
    while i < docs.len()
        invariant
            i <= docs@.len(),
            key@ == id@,
            str_views(refs@) == referrers(docs@.take(i as int), id@),
        decreases docs@.len() - i,
    {
        proof {
            assert(docs@.take(i + 1).drop_last() =~= docs@.take(i as int));
            assert(docs@.take(i + 1).last() == docs@[i as int]);
        }
        let d = &docs[i];
        let sid = match &d.frontmatter.id {
            Some(x) => x.clone(),
            None => String::new(),
        };
        if sid != key && doc_refers_to(d, &key) && !contains_str(&refs, &sid) {
            let ghost before = str_views(refs@);
            refs.push(sid);
            proof {
                assert(str_views(refs@) =~= before.push(self_id(docs@[i as int])));
            }
        }
        i += 1;
    }
    proof {
        assert(docs@.take(i as int) =~= docs@);
    }
    let r = crate::text::sorted_distinct(&refs);
    proof {
        assert forall|k: int| 0 <= k < docs@.len() && self_id(docs@[k]) != id@ && (str_views(
            docs@[k].wikilinks@,
        ).contains(id@) || exists|j: int| 0 <= j < docs@[k].frontmatter.relations@.len()
            && #[trigger] docs@[k].frontmatter.relations@[j].target@ == id@)
            implies str_views(r@).contains(#[trigger] self_id(docs@[k])) by {
            lemma_referrers_exact(docs@, id@, self_id(docs@[k]));
        }
    }
    r
}

/// Why `new` refused to write a document.
pub enum NewRefused {
    /// The target file exists and `--force` was not given.
    Exists { path: String },
    /// Another file already holds the id.
    IdInUse { id: String, path: String },
}

impl NewRefused {
    /// The refusal as the user reads it.
    pub fn message(&self) -> (r: String)
        ensures
            match self {
                NewRefused::Exists { path } => r@ == path@ + " already exists (use --force to overwrite)"@,
                NewRefused::IdInUse { id, path } => r@ == "id `"@ + id@ + "` is already used by "@ + path@,
            },
    {
        let mut out: Vec<char> = Vec::new();
        match self {
            NewRefused::Exists { path } => {
                push_str(&mut out, path.as_str());
                push_str(&mut out, " already exists (use --force to overwrite)");
            },
            NewRefused::IdInUse { id, path } => {
                push_str(&mut out, "id `");
                push_str(&mut out, id.as_str());
                push_str(&mut out, "` is already used by ");
                push_str(&mut out, path.as_str());
            },
        }
        string_of(&out)
    }
}

/// Whether `new` may write `id` at `rel_path`: not over an existing file
/// unless forced, and never when another file (`other`, its path) already
/// holds the id.
pub fn new_check(rel_path: &str, exists: bool, force: bool, id: &str, other: Option<&str>) -> (r: Result<(), NewRefused>)
    ensures
        exists && !force ==> (r matches Err(NewRefused::Exists { path }) && path@ == rel_path@),
        !(exists && !force) ==> match other {
            Some(o) => r matches Err(NewRefused::IdInUse { id: i, path }) && i@ == id@ && path@ == o@,
            None => r is Ok,
        },
{
    if exists && !force {
        return Err(NewRefused::Exists { path: rel_path.to_owned() });
    }
    match other {
        Some(o) => Err(NewRefused::IdInUse { id: id.to_owned(), path: o.to_owned() }),
        None => Ok(()),
    }
}

/// Why `rm` refused to delete a document.
pub struct RmRefused {
    pub id: String,
    pub referrers: Vec<String>,
}

impl RmRefused {
    /// The refusal as the user reads it.
    pub fn message(&self) -> (r: String)
        ensures
            r@ == decimal(self.referrers@.len() as nat) + " document(s) reference `"@ + self.id@ + "` ("@
                + join(str_views(self.referrers@), ", "@)
                + "). Their relations/links would dangle — re-point them or pass --force."@,
    {
        let mut out: Vec<char> = Vec::new();
        let n = usize_to_string(self.referrers.len());
        push_str(&mut out, n.as_str());
        push_str(&mut out, " document(s) reference `");
        push_str(&mut out, self.id.as_str());
        push_str(&mut out, "` (");
        let list = join_exec(&self.referrers, ", ");
        push_str(&mut out, list.as_str());
        push_str(&mut out, "). Their relations/links would dangle — re-point them or pass --force.");
        string_of(&out)
    }
}

/// Whether `rm` may delete `id`: refused while other documents refer to it,
/// unless forced.
pub fn rm_check(id: &str, inbound: Vec<String>, force: bool) -> (r: Result<(), RmRefused>)
    ensures
        inbound@.len() == 0 || force ==> r is Ok,
        inbound@.len() > 0 && !force ==> (r matches Err(e) && e.id@ == id@ && str_views(e.referrers@)
            == str_views(inbound@)),
{
    if inbound.len() > 0 && !force {
        Err(RmRefused { id: id.to_owned(), referrers: inbound })
    } else {
        Ok(())
    }
}

// ---------------------------------------------------------------------------
// Relocation
// ---------------------------------------------------------------------------

/// A planned move: document id, current path and target path.
pub type MoveView = (Seq<char>, Seq<char>, Seq<char>);

/// Lexicographic order on moves.
pub open spec fn move_lt(a: MoveView, b: MoveView) -> bool {
    lex_lt(a.0, b.0) || (a.0 == b.0 && (lex_lt(a.1, b.1) || (a.1 == b.1 && lex_lt(a.2, b.2))))
}

/// `x` inserted before the first move it sorts below.
pub open spec fn insert_move(s: Seq<MoveView>, x: MoveView) -> Seq<MoveView>
    decreases s.len(),
{
    if s.len() == 0 {
        seq![x]
    } else if move_lt(x, s[0]) {
        seq![x] + s
    } else {
        seq![s[0]] + insert_move(s.drop_first(), x)
    }
}

/// Moves in ascending order (insertion sort).
pub open spec fn sort_moves(s: Seq<MoveView>) -> Seq<MoveView>
    decreases s.len(),
{
    if s.len() == 0 {
        Seq::empty()
    } else {
        insert_move(sort_moves(s.drop_last()), s.last())
    }
}

/// The moves a relocation makes, in document order: every document with an
/// id (only `only_id`, when given) whose path differs from the layout's.
pub open spec fn planned_moves(docs: Seq<ParsedDoc>, only_id: Option<Seq<char>>, layout: Layout) -> Seq<MoveView>
    decreases docs.len(),
{
    if docs.len() == 0 {
        Seq::empty()
    } else {
        let r = planned_moves(docs.drop_last(), only_id, layout);
        let d = docs.last();
        match d.frontmatter.id {
            None => r,
            Some(id) => {
                let to = doc_rel_path_spec(layout, id@, d.frontmatter.altitude, str_views(d.frontmatter.topics@));
                if (only_id matches Some(w) && w != id@) || d.rel_path@ == to {
                    r
                } else {
                    r.push((id@, d.rel_path@, to))
                }
            },
        }
    }
}

/// One planned move.
pub struct Move {
    pub id: String,
    pub from: String,
    pub to: String,
}

impl View for Move {
    type V = MoveView;

    open spec fn view(&self) -> MoveView {
        (self.id@, self.from@, self.to@)
    }
}

/// The views of a list of moves.
pub open spec fn move_views(v: Seq<Move>) -> Seq<MoveView> {
    v.map_values(|m: Move| m@)
}

fn move_lt_exec(a: &Move, b: &Move) -> (r: bool)
    ensures
        r == move_lt(a@, b@),
{
    let a0 = chars_of(a.id.as_str());
    let b0 = chars_of(b.id.as_str());
    let a1 = chars_of(a.from.as_str());
    let b1 = chars_of(b.from.as_str());
    let a2 = chars_of(a.to.as_str());
    let b2 = chars_of(b.to.as_str());
    lex_lt_exec(&a0, &b0) || (seq_eq(&a0, &b0) && (lex_lt_exec(&a1, &b1) || (seq_eq(&a1, &b1)
        && lex_lt_exec(&a2, &b2))))
}

fn insert_move_exec(v: &mut Vec<Move>, x: Move)
    ensures
        move_views(final(v)@) == insert_move(move_views(old(v)@), x@),
{
    let mut i: usize = 0;
    let ghost s = move_views(v@);
    proof {
        assert(s.skip(0) =~= s);
        assert(s.take(0) + insert_move(s, x@) =~= insert_move(s, x@));
    }
    while i < v.len()
        invariant
            i <= v@.len(),
            v@ == old(v)@,
            s == move_views(v@),
            insert_move(s, x@) == s.take(i as int) + insert_move(s.skip(i as int), x@),
        decreases v@.len() - i,
    {
        assert(s.skip(i as int)[0] == v@[i as int]@);
        assert(s.skip(i as int).drop_first() =~= s.skip(i + 1));
        if move_lt_exec(&x, &v[i]) {
            v.insert(i, x);
            proof {
                assert(move_views(v@) =~= s.take(i as int) + (seq![x@] + s.skip(i as int)));
            }
            return;
        }
        proof {
            assert(s.take(i + 1) =~= s.take(i as int) + seq![s[i as int]]);
            assert(s.take(i as int) + (seq![s[i as int]] + insert_move(s.skip(i + 1), x@))
                =~= s.take(i + 1) + insert_move(s.skip(i + 1), x@));
        }
        i += 1;
    }
    proof {
        assert(s.skip(i as int) =~= Seq::<MoveView>::empty());
        assert(s.take(i as int) =~= s);
    }
    let ghost xv = x@;
    v.push(x);
    proof {
        assert(move_views(v@) =~= s + seq![xv]);
    }
}

/// The moves that bring files in line with `layout`, sorted: documents
/// without an id stay put, and only `only_id` moves when it is given.
pub fn relocation_moves(docs: &Vec<ParsedDoc>, only_id: Option<&str>, layout: Layout) -> (r: Vec<Move>)
    ensures
        move_views(r@) == sort_moves(planned_moves(docs@, match only_id {
            Some(w) => Some(w@),
            None => None,
        }, layout)),
{
    let ghost oid = match only_id {
        Some(w) => Some(w@),
        None => None,
    };
    let mut sorted: Vec<Move> = Vec::new();
    let mut i: usize = 0;
    proof {
        assert(docs@.take(0) =~= Seq::<ParsedDoc>::empty());
        assert(move_views(sorted@) =~= Seq::<MoveView>::empty());
    }
    while i < docs.len()
        invariant
            i <= docs@.len(),
            oid == match only_id {
                Some(w) => Some(w@),
                None => None::<Seq<char>>,
            },
            move_views(sorted@) == sort_moves(planned_moves(docs@.take(i as int), oid, layout)),
        decreases docs@.len() - i,
    {
        proof {
            assert(docs@.take(i + 1).drop_last() =~= docs@.take(i as int));
            assert(docs@.take(i + 1).last() == docs@[i as int]);
        }
        let d = &docs[i];
        match &d.frontmatter.id {
            None => {},
            Some(id) => {
                let skip = match only_id {
                    Some(w) => {
                        let wc = chars_of(w);
                        let ic = chars_of(id.as_str());
                        !seq_eq(&wc, &ic)
                    },
                    None => false,
                };
                if !skip {
                    let to = doc_rel_path(layout, id.as_str(), d.frontmatter.altitude, d.frontmatter.topics.as_slice());
                    if d.rel_path != to {
                        let m = Move { id: id.clone(), from: d.rel_path.clone(), to };
                        proof {
                            let p = planned_moves(docs@.take(i as int), oid, layout);
                            assert(planned_moves(docs@.take(i + 1), oid, layout) == p.push(m@));
                            assert(p.push(m@).drop_last() =~= p);
                        }
                        insert_move_exec(&mut sorted, m);
                    }
                }
            },
        }
        i += 1;
    }
    proof {
        assert(docs@.take(i as int) =~= docs@);
    }
    sorted
}


/// Where a document sits once a relocation is done: its layout path when the
/// relocation touches it, else where it was.
pub open spec fn relocated_path(d: ParsedDoc, only_id: Option<Seq<char>>, layout: Layout) -> Seq<char> {
    match d.frontmatter.id {
        None => d.rel_path@,
        Some(id) => if only_id matches Some(w) && w != id@ {
            d.rel_path@
        } else {
            doc_rel_path_spec(layout, id@, d.frontmatter.altitude, str_views(d.frontmatter.topics@))
        },
    }
}

/// Relocation is idempotent: once every document sits where a relocation
/// puts it, relocating again with the same layout moves nothing.
pub proof fn lemma_relocation_idempotent(
    docs: Seq<ParsedDoc>,
    after: Seq<ParsedDoc>,
    only_id: Option<Seq<char>>,
    layout: Layout,
)
    requires
        after.len() == docs.len(),
        forall|i: int| 0 <= i < docs.len() ==> (#[trigger] after[i]).frontmatter == docs[i].frontmatter
            && after[i].rel_path@ == relocated_path(docs[i], only_id, layout),
    ensures
        planned_moves(after, only_id, layout).len() == 0,
    decreases docs.len(),
{
    if docs.len() > 0 {
        let n = docs.len() - 1;
        assert forall|i: int| 0 <= i < docs.drop_last().len() implies (#[trigger] after.drop_last()[i]).frontmatter
            == docs.drop_last()[i].frontmatter
            && after.drop_last()[i].rel_path@ == relocated_path(docs.drop_last()[i], only_id, layout) by {
            assert(after.drop_last()[i] == after[i]);
            assert(docs.drop_last()[i] == docs[i]);
        }
        lemma_relocation_idempotent(docs.drop_last(), after.drop_last(), only_id, layout);
        assert(after.last() == after[n]);
        assert(after[n].frontmatter == docs[n].frontmatter);
    }
}

} // verus!
