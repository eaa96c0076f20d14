//! The document data model: the frontmatter contract and typed edges.
//!
//! Frontmatter fields are optional so that `lint` can report which required
//! fields are missing rather than rejecting the whole file; `index` enforces
//! presence explicitly.

use vstd::prelude::*;
use crate::text::{chars_of, join, join_exec, seq_eq, str_views};

verus! {

/// The highest altitude: 0 is an overview, 3 an implementation detail.
pub const MAX_ALTITUDE: i64 = 3;

/// The five typed relation kinds. Inline `[[wikilinks]]` synthesize
/// `references`.
pub open spec fn edge_types() -> Seq<Seq<char>> {
    seq!["refines"@, "part_of"@, "depends_on"@, "references"@, "supersedes"@]
}

/// Whether `s` names one of the typed relation kinds.
pub fn is_edge_type(s: &str) -> (b: bool)
    ensures
        b == edge_types().contains(s@),
{
    let c = chars_of(s);
    let r = seq_eq(&c, &chars_of("refines")) || seq_eq(&c, &chars_of("part_of")) || seq_eq(
        &c,
        &chars_of("depends_on"),
    ) || seq_eq(&c, &chars_of("references")) || seq_eq(&c, &chars_of("supersedes"));
    proof {
        let e = edge_types();
        assert(e[0] == "refines"@ && e[1] == "part_of"@ && e[2] == "depends_on"@ && e[3]
            == "references"@ && e[4] == "supersedes"@);
        if r {
            if s@ == "refines"@ {
                assert(e[0] == s@);
            } else if s@ == "part_of"@ {
                assert(e[1] == s@);
            } else if s@ == "depends_on"@ {
                assert(e[2] == s@);
            } else if s@ == "references"@ {
                assert(e[3] == s@);
            } else {
                assert(e[4] == s@);
            }
        }
    }
    r
}

/// The relation kinds, comma-separated, for messages.
pub fn edge_type_list() -> (r: String)
    ensures
        r@ == join(edge_types(), ", "@),
{
    let v = vec![
        "refines".to_owned(),
        "part_of".to_owned(),
        "depends_on".to_owned(),
        "references".to_owned(),
        "supersedes".to_owned(),
    ];
    assert(str_views(v@) =~= edge_types());
    join_exec(&v, ", ")
}

/// A typed edge to another document, by id.
pub struct Relation {
    pub edge_type: String,
    pub target: String,
}

impl View for Relation {
    type V = (Seq<char>, Seq<char>);

    open spec fn view(&self) -> (Seq<char>, Seq<char>) {
        (self.edge_type@, self.target@)
    }
}

impl Relation {
    /// Whether the relation's type is one of the typed relation kinds.
    pub fn is_valid_type(&self) -> (b: bool)
        ensures
            b == edge_types().contains(self.edge_type@),
    {
        is_edge_type(self.edge_type.as_str())
    }

    /// A copy of the relation.
    pub fn copy(&self) -> (r: Relation)
        ensures
            r@ == self@,
    {
        Relation { edge_type: self.edge_type.clone(), target: self.target.clone() }
    }
}

/// The views of a list of relations.
pub open spec fn relation_views(v: Seq<Relation>) -> Seq<(Seq<char>, Seq<char>)> {
    v.map_values(|r: Relation| r@)
}

/// Raw, possibly incomplete frontmatter as authored. Validation happens
/// later. The field order is the on-disk order.
pub struct Frontmatter {
    pub id: Option<String>,
    pub title: Option<String>,
    pub altitude: Option<i64>,
    pub topics: Vec<String>,
    pub relations: Vec<Relation>,
    pub summary: Option<String>,
}

/// The view of an optional string.
pub open spec fn opt_str(s: Option<String>) -> Option<Seq<char>> {
    match s {
        Some(x) => Some(x@),
        None => None,
    }
}

/// The model of a frontmatter block: id, title, altitude, topics, relations
/// and summary.
pub type FrontmatterView = (
    Option<Seq<char>>,
    Option<Seq<char>>,
    Option<i64>,
    Seq<Seq<char>>,
    Seq<(Seq<char>, Seq<char>)>,
    Option<Seq<char>>,
);

impl View for Frontmatter {
    type V = FrontmatterView;

    open spec fn view(&self) -> FrontmatterView {
        (
            opt_str(self.id),
            opt_str(self.title),
            self.altitude,
            str_views(self.topics@),
            relation_views(self.relations@),
            opt_str(self.summary),
        )
    }
}

} // verus!
