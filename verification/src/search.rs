//! `engrym search`: which rankers run, the keyword query, and which fused hits
//! are shown.
//!
//! Keyword ranking (BM25 over FTS5) and semantic ranking (cosine over chunk
//! vectors) are fused by reciprocal rank; the index queries and the scores
//! are the caller's. Here: the rankers a mode uses, the MATCH expression, the
//! candidate pool, which fused chunks become hits, and the passage snippet.

use vstd::prelude::*;
use crate::browse::{quoted_all, quoted_tokens, tokens};
use crate::text::{
    chars_of, join, join_exec, slice_of, string_of, trim, trim_bounds, trim_end, trim_end_bound,
};

verus! {

/// Which rankers a search uses.
#[derive(Clone, Copy, PartialEq, Eq, Structural)]
pub enum Mode {
    /// Keyword and semantic, fused.
    Hybrid,
    Keyword,
    Semantic,
}

/// A search request.
pub struct Args {
    pub query: String,
    pub limit: usize,
    /// Only passages of documents at this altitude.
    pub altitude: Option<i64>,
    pub mode: Mode,
}

/// The rankers a search runs: `(keyword, semantic, warn)`. Semantic ranking
/// needs embeddings; asked for without them it falls back to keyword ranking
/// and warns. Hybrid quietly uses keyword ranking alone.
pub fn rankers(mode: Mode, has_vectors: bool) -> (r: (bool, bool, bool))
    ensures
        r == match mode {
            Mode::Keyword => (true, false, false),
            Mode::Semantic => if has_vectors { (false, true, false) } else { (true, false, true) },
            Mode::Hybrid => (true, has_vectors, false),
        },
{
    match mode {
        Mode::Keyword => (true, false, false),
        Mode::Semantic => if has_vectors { (false, true, false) } else { (true, false, true) },
        Mode::Hybrid => (true, has_vectors, false),
    }
}

/// How many candidates each ranker contributes: five per requested hit, at
/// least fifty.
pub fn pool_size(limit: usize) -> (r: usize)
    requires
        limit * 5 <= usize::MAX,
    ensures
        r == if limit * 5 > 50 { limit * 5 } else { 50 },
{
    let p = limit * 5;
    if p > 50 { p } else { 50 }
}

/// The FTS5 MATCH expression for a query: each token (letters, digits and
/// `_`) as a quoted phrase, space-separated (all must match); `""` when there
/// is none.
pub open spec fn match_expr(query: Seq<char>) -> Seq<char> {
    let ts = quoted_all(tokens(query, true));
    if ts.len() == 0 {
        seq!['"', '"']
    } else {
        join(ts, " "@)
    }
}

/// Build a safe FTS5 MATCH expression from a query.
pub fn build_match(query: &str) -> (r: String)
    ensures
        r@ == match_expr(query@),
{
    let ts = quoted_tokens(query, true);
    if ts.len() == 0 {
        let mut v: Vec<char> = Vec::new();
        v.push('"');
        v.push('"');
        assert(v@ =~= seq!['"', '"']);
        string_of(&v)
    } else {
        join_exec(&ts, " ")
    }
}

/// The hits a search shows: the fused candidates in order, skipping those
/// whose chunk is gone (`None`) or whose document is at another altitude
/// than asked, stopping at `limit`. Returns positions in `altitudes`.
pub open spec fn hit_positions(altitudes: Seq<Option<i64>>, limit: nat, altitude: Option<i64>) -> Seq<int>
    decreases altitudes.len(),
{
    if altitudes.len() == 0 {
        Seq::empty()
    } else {
        let prev = hit_positions(altitudes.drop_last(), limit, altitude);
        let last = altitudes.last();
        let keep = match last {
            Some(a) => match altitude {
                Some(want) => a == want,
                None => true,
            },
            None => false,
        };
        if keep && prev.len() < limit {
            prev.push(altitudes.len() - 1)
        } else {
            prev
        }
    }
}

/// What a search shows, stated without `hit_positions`' own steps: at most
/// `limit` hits, in candidate order, each a resolved candidate at the asked
/// altitude (any altitude when none is asked); and a resolved candidate at the
/// asked altitude is left out only when `limit` earlier hits were already kept.
pub proof fn lemma_hit_positions(altitudes: Seq<Option<i64>>, limit: nat, altitude: Option<i64>)
    ensures
        ({
            let r = hit_positions(altitudes, limit, altitude);
            &&& r.len() <= limit
            &&& forall|j: int| 0 <= j < r.len() ==> 0 <= #[trigger] r[j] < altitudes.len()
            &&& forall|j: int| 0 <= j < r.len() ==> (#[trigger] altitudes[r[j]]) is Some
            &&& forall|j: int| 0 <= j < r.len() && altitude is Some
                ==> (#[trigger] altitudes[r[j]])->0 == altitude->0
            &&& forall|j: int, k: int| 0 <= j < k < r.len() ==> #[trigger] r[j] < #[trigger] r[k]
            &&& forall|k: int| 0 <= k < altitudes.len() && (#[trigger] altitudes[k]) is Some
                && (altitude is Some ==> altitudes[k]->0 == altitude->0) && !r.contains(k)
                ==> r.len() == limit && forall|j: int| 0 <= j < r.len() ==> r[j] < k
        }),
    decreases altitudes.len(),
{
    let r = hit_positions(altitudes, limit, altitude);
    if altitudes.len() > 0 {
        let n = altitudes.len() - 1;
        let a0 = altitudes.drop_last();
        let prev = hit_positions(a0, limit, altitude);
        lemma_hit_positions(a0, limit, altitude);
        assert forall|i: int| 0 <= i < n implies altitudes[i] == #[trigger] a0[i] by {}
        if r.len() == prev.len() + 1 {
            assert(r == prev.push(n));
            assert forall|j: int| 0 <= j < r.len() implies (#[trigger] altitudes[r[j]]) is Some
                && (altitude is Some ==> altitudes[r[j]]->0 == altitude->0) by {
                if j < prev.len() {
                    assert(r[j] == prev[j]);
                    assert(a0[prev[j]] == altitudes[prev[j]]);
                }
            }
            assert forall|k: int| 0 <= k < altitudes.len() && (#[trigger] altitudes[k]) is Some
                && (altitude is Some ==> altitudes[k]->0 == altitude->0) && !r.contains(k)
                implies r.len() == limit && forall|j: int| 0 <= j < r.len() ==> r[j] < k by {
                if k == n {
                    assert(r[r.len() - 1] == k);
                } else {
                    assert(a0[k] == altitudes[k]);
                    if prev.contains(k) {
                        let j = choose|j: int| 0 <= j < prev.len() && prev[j] == k;
                        assert(r[j] == k);
                    }
                }
            }
        } else {
            assert(r == prev);
            assert forall|j: int| 0 <= j < r.len() implies (#[trigger] altitudes[r[j]]) is Some
                && (altitude is Some ==> altitudes[r[j]]->0 == altitude->0) by {
                assert(a0[prev[j]] == altitudes[prev[j]]);
            }
            assert forall|k: int| 0 <= k < altitudes.len() && (#[trigger] altitudes[k]) is Some
                && (altitude is Some ==> altitudes[k]->0 == altitude->0) && !r.contains(k)
                implies r.len() == limit && forall|j: int| 0 <= j < r.len() ==> r[j] < k by {
                if k < n {
                    assert(a0[k] == altitudes[k]);
                }
            }
        }
    }
}

/// Choose the hits among the fused candidates; `altitudes[i]` is the altitude
/// of candidate `i`'s document, `None` when the chunk did not resolve.
pub fn select_hits(altitudes: &Vec<Option<i64>>, limit: usize, altitude: Option<i64>) -> (r: Vec<usize>)
    ensures
        r@.map_values(|x: usize| x as int) == hit_positions(altitudes@, limit as nat, altitude),
        r@.len() <= limit,
        forall|j: int| 0 <= j < r@.len() ==> #[trigger] r@[j] < altitudes@.len(),
        forall|j: int| 0 <= j < r@.len() ==> (#[trigger] altitudes@[r@[j] as int]) is Some,
        forall|j: int| 0 <= j < r@.len() && altitude is Some
            ==> (#[trigger] altitudes@[r@[j] as int])->0 == altitude->0,
        forall|j: int, k: int| 0 <= j < k < r@.len() ==> #[trigger] r@[j] < #[trigger] r@[k],
        forall|k: int| 0 <= k < altitudes@.len() && (#[trigger] altitudes@[k]) is Some
            && (altitude is Some ==> altitudes@[k]->0 == altitude->0)
            && !r@.map_values(|x: usize| x as int).contains(k)
            ==> r@.len() == limit && forall|j: int| 0 <= j < r@.len() ==> r@[j] < k,
{
    let mut out: Vec<usize> = Vec::new();
    let mut i: usize = 0;
    proof {
        assert(altitudes@.take(0) =~= Seq::<Option<i64>>::empty());
        assert(out@.map_values(|x: usize| x as int) =~= Seq::<int>::empty());
    }
    while i < altitudes.len()
        invariant
            i <= altitudes@.len(),
            out@.map_values(|x: usize| x as int) == hit_positions(altitudes@.take(i as int), limit as nat, altitude),
            out@.len() <= limit,
        decreases altitudes@.len() - i,
    {
        let ghost t = altitudes@.take(i + 1);
        proof {
            assert(t.drop_last() =~= altitudes@.take(i as int));
            assert(t.last() == altitudes@[i as int]);
        }
        let keep = match altitudes[i] {
            Some(a) => match altitude {
                Some(want) => a == want,
                None => true,
            },
            None => false,
        };
        if keep && out.len() < limit {
            let ghost before = out@.map_values(|x: usize| x as int);
            out.push(i);
            proof {
                assert(out@.map_values(|x: usize| x as int) =~= before.push(i as int));
            }
        }
        i += 1;
    }
    proof {
        assert(altitudes@.take(altitudes@.len() as int) =~= altitudes@);
        lemma_hit_positions(altitudes@, limit as nat, altitude);
        let m = out@.map_values(|x: usize| x as int);
        assert forall|j: int| 0 <= j < out@.len() implies m[j] == #[trigger] out@[j] as int by {}
    }
    out
}

/// A passage shortened for display: trimmed; when longer than `max`
/// characters, its first `max` characters, trailing whitespace dropped, and
/// an ellipsis.
pub open spec fn snippet_spec(text: Seq<char>, max: nat) -> Seq<char> {
    let t = trim(text);
    if t.len() <= max {
        t
    } else {
        trim_end(t.take(max as int)) + seq!['…']
    }
}

/// Shorten a passage for display.
pub fn snippet(text: &str, max: usize) -> (r: String)
    ensures
        r@ == snippet_spec(text@, max as nat),
{
    let cs = chars_of(text);
    let (a, b) = trim_bounds(&cs, 0, cs.len());
    proof {
        assert(cs@.subrange(0, cs@.len() as int) =~= cs@);
    }
    let t = slice_of(&cs, a, b);
    if t.len() <= max {
        return string_of(&t);
    }
    let e = trim_end_bound(&t, 0, max);
    let mut out = slice_of(&t, 0, e);
    out.push('…');
    proof {
        assert(t@.subrange(0, max as int) =~= t@.take(max as int));
        assert(out@ =~= trim_end(t@.take(max as int)) + seq!['…']);
    }
    string_of(&out)
}

} // verus!
