//! The local-KB registry.
//!
//! In local mode a KB lives in an external store keyed by the repo. One repo
//! surfaces at many paths (worktrees, separate clones of one remote), so the
//! registry lets several anchors share one store:
//!
//!   * `key` is the store directory name: the canonical KB;
//!   * `identity` is the repo's normalized `origin` URL, the signal that two
//!     clones are the same repo;
//!   * `anchors` are the resolved paths that map to the store.
//!
//! Resolution is a pure lookup: an anchor maps to a store only through an
//! explicit entry, and an anchor maps to at most one store.

use vstd::prelude::*;
use crate::text::{
    without, lemma_without, lemma_without_noop, str_views, copy_strings, lines, lines_exec, views,
    trim, trim_start, starts_with, starts_with_exec, chars_of, string_of, slice_of, trim_bounds,
    seq_eq, char_index_from, char_index_exec, lemma_char_index_from, trim_end_char,
    trim_end_char_bound, ends_with, unicode_lowercase, to_lowercase, push_all, lower,
};
use crate::model::opt_str;
use crate::config::{project_key, project_key_spec};
use crate::agents::{join_path, join_path_exec};
use crate::text::{sort_dedup, sorted_distinct, is_space, lemma_trim_fixed, lemma_char_index_concat};

verus! {

/// A registry entry: store key, repo identity and anchors.
pub type RepoView = (Seq<char>, Option<Seq<char>>, Seq<Seq<char>>);

/// One store and the anchors that map to it.
pub struct Repo {
    /// Store directory name under `projects/`: the canonical KB key.
    pub key: String,
    /// Normalized `origin` URL, when the repo has one.
    pub identity: Option<String>,
    /// Resolved anchor paths that map to this store.
    pub anchors: Vec<String>,
}

impl View for Repo {
    type V = RepoView;

    open spec fn view(&self) -> RepoView {
        (self.key@, opt_str(self.identity), str_views(self.anchors@))
    }
}

/// The registry of local stores.
pub struct Registry {
    pub repos: Vec<Repo>,
}

impl View for Registry {
    type V = Seq<RepoView>;

    open spec fn view(&self) -> Seq<RepoView> {
        self.repos@.map_values(|r: Repo| r@)
    }
}

impl Default for Registry {
    fn default() -> (r: Registry)
        ensures
            r@ == Seq::<RepoView>::empty(),
    {
        let r = Registry { repos: Vec::new() };
        assert(r@ =~= Seq::<RepoView>::empty());
        r
    }
}

// ---------------------------------------------------------------------------
// Model
// ---------------------------------------------------------------------------

/// An optional index moved by `d`.
pub open spec fn shift(o: Option<int>, d: int) -> Option<int> {
    match o {
        Some(j) => Some(j + d),
        None => None,
    }
}

/// The first entry that lists anchor `a`.
pub open spec fn first_with_anchor(rs: Seq<RepoView>, a: Seq<char>) -> Option<int>
    decreases rs.len(),
{
    if rs.len() == 0 {
        None
    } else if rs[0].2.contains(a) {
        Some(0)
    } else {
        match first_with_anchor(rs.drop_first(), a) {
            Some(i) => Some(i + 1),
            None => None,
        }
    }
}

/// The store key anchor `a` maps to.
pub open spec fn key_for(rs: Seq<RepoView>, a: Seq<char>) -> Option<Seq<char>> {
    match first_with_anchor(rs, a) {
        Some(i) => Some(rs[i].0),
        None => None,
    }
}

/// The first entry with key `k`.
pub open spec fn first_with_key(rs: Seq<RepoView>, k: Seq<char>) -> Option<int>
    decreases rs.len(),
{
    if rs.len() == 0 {
        None
    } else if rs[0].0 == k {
        Some(0)
    } else {
        match first_with_key(rs.drop_first(), k) {
            Some(i) => Some(i + 1),
            None => None,
        }
    }
}

/// The first entry recorded with identity `id`.
pub open spec fn first_with_identity(rs: Seq<RepoView>, id: Seq<char>) -> Option<int>
    decreases rs.len(),
{
    if rs.len() == 0 {
        None
    } else if rs[0].1 == Some(id) {
        Some(0)
    } else {
        match first_with_identity(rs.drop_first(), id) {
            Some(i) => Some(i + 1),
            None => None,
        }
    }
}

/// The last entry that lists anchor `a`.
pub open spec fn last_with_anchor(rs: Seq<RepoView>, a: Seq<char>) -> Option<int>
    decreases rs.len(),
{
    if rs.len() == 0 {
        None
    } else if rs.last().2.contains(a) {
        Some(rs.len() - 1)
    } else {
        last_with_anchor(rs.drop_last(), a)
    }
}

/// `a` removed from every entry whose key is not `k`.
pub open spec fn detach(rs: Seq<RepoView>, a: Seq<char>, k: Seq<char>) -> Seq<RepoView> {
    rs.map_values(|r: RepoView| if r.0 != k { (r.0, r.1, without(r.2, a)) } else { r })
}

/// The registry after recording `a -> k` (and the identity): the anchor is
/// detached from every other store, the entry for `k` is created if missing,
/// lists the anchor, and records the identity if it had none.
pub open spec fn link_spec(rs: Seq<RepoView>, a: Seq<char>, k: Seq<char>, id: Option<Seq<char>>) -> Seq<RepoView> {
    let d = detach(rs, a, k);
    let es = match first_with_key(d, k) {
        Some(i) => d,
        None => d.push((k, None, Seq::empty())),
    };
    let i = match first_with_key(d, k) {
        Some(i) => i,
        None => d.len() as int,
    };
    let e = es[i];
    let anchors = if e.2.contains(a) { e.2 } else { e.2.push(a) };
    let ident = if e.1 is None && id is Some { id } else { e.1 };
    es.update(i, (e.0, ident, anchors))
}

/// Entries that keep a reason to exist: an anchor, or a store on disk.
pub open spec fn keep_live(rs: Seq<RepoView>, live: Seq<Seq<char>>) -> Seq<RepoView>
    decreases rs.len(),
{
    if rs.len() == 0 {
        Seq::empty()
    } else {
        let rest = keep_live(rs.drop_last(), live);
        if rs.last().2.len() > 0 || live.contains(rs.last().0) {
            rest.push(rs.last())
        } else {
            rest
        }
    }
}

/// The registry after dropping anchor `a`: removed from every entry, then
/// entries with neither anchors nor a live store dropped.
pub open spec fn unlink_spec(rs: Seq<RepoView>, a: Seq<char>, live: Seq<Seq<char>>) -> Seq<RepoView> {
    keep_live(rs.map_values(|r: RepoView| (r.0, r.1, without(r.2, a))), live)
}

/// The anchors of `anchors` that still exist.
pub open spec fn existing_only(anchors: Seq<Seq<char>>, existing: Seq<Seq<char>>) -> Seq<Seq<char>>
    decreases anchors.len(),
{
    if anchors.len() == 0 {
        Seq::empty()
    } else {
        let rest = existing_only(anchors.drop_last(), existing);
        if existing.contains(anchors.last()) {
            rest.push(anchors.last())
        } else {
            rest
        }
    }
}

/// The registry after dropping anchors that no longer exist and entries with
/// neither anchors nor a live store.
pub open spec fn prune_spec(rs: Seq<RepoView>, existing: Seq<Seq<char>>, live: Seq<Seq<char>>) -> Seq<RepoView> {
    keep_live(rs.map_values(|r: RepoView| (r.0, r.1, existing_only(r.2, existing))), live)
}

/// Every anchor maps to at most one store and keys are distinct.
pub open spec fn registry_wf(rs: Seq<RepoView>) -> bool {
    &&& forall|i: int, j: int| 0 <= i < j < rs.len() ==> #[trigger] rs[i].0 != #[trigger] rs[j].0
    &&& forall|i: int, j: int, x: Seq<char>|
        #![trigger rs[i].2.contains(x), rs[j].2.contains(x)]
        0 <= i < rs.len() && 0 <= j < rs.len() && i != j && rs[i].2.contains(x) ==> !rs[j].2.contains(x)
}

// ---------------------------------------------------------------------------
// Executable registry
// ---------------------------------------------------------------------------

/// A copy of an optional string.
pub fn copy_opt(o: &Option<String>) -> (r: Option<String>)
    ensures
        opt_str(r) == opt_str(*o),
{
    match o {
        Some(s) => Some(s.clone()),
        None => None,
    }
}

/// `v` without the strings equal to `x`, and whether any was removed.
fn remove_string(v: &Vec<String>, x: &String) -> (r: (Vec<String>, bool))
    ensures
        str_views(r.0@) == without(str_views(v@), x@),
        r.1 == str_views(v@).contains(x@),
{
    let mut out: Vec<String> = Vec::new();
    let mut i: usize = 0;
    let ghost s = str_views(v@);
    proof {
        assert(s.take(0) =~= Seq::<Seq<char>>::empty());
        assert(str_views(out@) =~= Seq::<Seq<char>>::empty());
    }
    while i < v.len()
        invariant
            i <= v@.len(),
            s == str_views(v@),
            str_views(out@) == without(s.take(i as int), x@),
        decreases v@.len() - i,
    {
        proof {
            assert(s.take(i + 1).drop_last() =~= s.take(i as int));
            assert(s.take(i + 1).last() == v@[i as int]@);
        }
        if v[i] != *x {
            let ghost before = str_views(out@);
            out.push(v[i].clone());
            proof {
                assert(str_views(out@) =~= before.push(v@[i as int]@));
            }
        }
        i += 1;
    }
    proof {
        assert(s.take(i as int) =~= s);
        lemma_without(s, x@, x@);
    }
    let removed = out.len() != v.len();
    (out, removed)
}

/// Whether `v` holds a string equal to `x`.
fn has_string(v: &Vec<String>, x: &String) -> (b: bool)
    ensures
        b == str_views(v@).contains(x@),
{
    crate::parse::contains_str(v, x)
}

impl Registry {
    /// An empty registry.
    pub fn new() -> (r: Registry)
        ensures
            r@ == Seq::<RepoView>::empty(),
    {
        Registry::default()
    }

    /// The store key an anchor is explicitly mapped to, if any.
    pub fn key_for_anchor(&self, anchor: &str) -> (r: Option<String>)
        ensures
            opt_str(r) == key_for(self@, anchor@),
    {
        let a = anchor.to_owned();
        let ghost rs = self@;
        let mut i: usize = 0;
        proof {
            assert(rs.skip(0) =~= rs);
            assert(shift(first_with_anchor(rs, anchor@), 0) == first_with_anchor(rs, anchor@));
        }
        while i < self.repos.len()
            invariant
                i <= self.repos@.len(),
                rs == self@,
                a@ == anchor@,
                first_with_anchor(rs, anchor@) == shift(first_with_anchor(rs.skip(i as int), anchor@), i as int),
            decreases self.repos@.len() - i,
        {
            proof {
                assert(rs.skip(i as int)[0] == self.repos@[i as int]@);
                assert(rs.skip(i as int).drop_first() =~= rs.skip(i + 1));
            }
            if has_string(&self.repos[i].anchors, &a) {
                return Some(self.repos[i].key.clone());
            }
            i += 1;
        }
        proof {
            assert(rs.skip(i as int) =~= Seq::<RepoView>::empty());
        }
        None
    }

    /// The entry for a repo identity (a same-repo store under another clone).
    pub fn find_by_identity(&self, identity: &str) -> (r: Option<&Repo>)
        ensures
            match first_with_identity(self@, identity@) {
                Some(i) => r matches Some(e) && e@ == self@[i],
                None => r is None,
            },
    {
        let id = identity.to_owned();
        let ghost rs = self@;
        let mut i: usize = 0;
        proof {
            assert(rs.skip(0) =~= rs);
            assert(shift(first_with_identity(rs, identity@), 0) == first_with_identity(rs, identity@));
        }
        while i < self.repos.len()
            invariant
                i <= self.repos@.len(),
                rs == self@,
                id@ == identity@,
                first_with_identity(rs, identity@) == shift(first_with_identity(rs.skip(i as int), identity@), i as int),
            decreases self.repos@.len() - i,
        {
            proof {
                assert(rs.skip(i as int)[0] == self.repos@[i as int]@);
                assert(rs.skip(i as int).drop_first() =~= rs.skip(i + 1));
            }
            let hit = match &self.repos[i].identity {
                Some(x) => *x == id,
                None => false,
            };
            if hit {
                return Some(&self.repos[i]);
            }
            i += 1;
        }
        proof {
            assert(rs.skip(i as int) =~= Seq::<RepoView>::empty());
        }
        None
    }
}


/// Whether `o` and `v` name the same optional string.
fn opt_is(o: &Option<String>, v: &String) -> (b: bool)
    ensures
        b == (opt_str(*o) == Some(v@)),
{
    match o {
        Some(x) => *x == *v,
        None => false,
    }
}

/// The anchors of `v` that still exist.
fn keep_existing(v: &Vec<String>, existing: &Vec<String>) -> (r: Vec<String>)
    ensures
        str_views(r@) == existing_only(str_views(v@), str_views(existing@)),
{
    let mut out: Vec<String> = Vec::new();
    let mut i: usize = 0;
    let ghost s = str_views(v@);
    proof {
        assert(s.take(0) =~= Seq::<Seq<char>>::empty());
        assert(str_views(out@) =~= Seq::<Seq<char>>::empty());
    }
    while i < v.len()
        invariant
            i <= v@.len(),
            s == str_views(v@),
            str_views(out@) == existing_only(s.take(i as int), str_views(existing@)),
        decreases v@.len() - i,
    {
        proof {
            assert(s.take(i + 1).drop_last() =~= s.take(i as int));
            assert(s.take(i + 1).last() == v@[i as int]@);
        }
        if has_string(existing, &v[i]) {
            let ghost before = str_views(out@);
            out.push(v[i].clone());
            proof {
                assert(str_views(out@) =~= before.push(v@[i as int]@));
            }
        }
        i += 1;
    }
    proof {
        assert(s.take(i as int) =~= s);
    }
    out
}

proof fn lemma_existing_only_len(a: Seq<Seq<char>>, e: Seq<Seq<char>>)
    ensures
        existing_only(a, e).len() <= a.len(),
        existing_only(a, e).len() == a.len() ==> existing_only(a, e) == a,
    decreases a.len(),
{
    if a.len() > 0 {
        lemma_existing_only_len(a.drop_last(), e);
        if existing_only(a, e).len() == a.len() {
            assert(a.drop_last().push(a.last()) =~= a);
        }
    }
}

proof fn lemma_keep_live_len(rs: Seq<RepoView>, live: Seq<Seq<char>>)
    ensures
        keep_live(rs, live).len() <= rs.len(),
        keep_live(rs, live).len() == rs.len() ==> keep_live(rs, live) == rs,
    decreases rs.len(),
{
    if rs.len() > 0 {
        lemma_keep_live_len(rs.drop_last(), live);
        if keep_live(rs, live).len() == rs.len() {
            assert(rs.drop_last().push(rs.last()) =~= rs);
        }
    }
}

proof fn lemma_first_with_key(rs: Seq<RepoView>, k: Seq<char>)
    ensures
        match first_with_key(rs, k) {
            Some(i) => 0 <= i < rs.len() && rs[i].0 == k && forall|j: int| 0 <= j < i ==> #[trigger] rs[j].0 != k,
            None => forall|j: int| 0 <= j < rs.len() ==> #[trigger] rs[j].0 != k,
        },
    decreases rs.len(),
{
    if rs.len() > 0 && rs[0].0 != k {
        lemma_first_with_key(rs.drop_first(), k);
        assert forall|j: int| 1 <= j < rs.len() implies rs[j].0 == rs.drop_first()[j - 1].0 by {}
    }
}

impl Registry {
    /// Record `anchor -> key` (and the repo's identity) so the checkout shares
    /// the store. An anchor maps to one store, so it is first detached from
    /// every other entry. Returns whether anything changed.
    pub fn link(&mut self, anchor: &str, key: &str, identity: Option<String>) -> (changed: bool)
        ensures
            final(self)@ == link_spec(old(self)@, anchor@, key@, opt_str(identity)),
            changed == (final(self)@ != old(self)@),
    {
        let a = anchor.to_owned();
        let k = key.to_owned();
        let ghost rs = self@;
        let ghost d = detach(rs, anchor@, key@);
        let mut detached = false;
        let mut i: usize = 0;
        while i < self.repos.len()
            invariant
                a@ == anchor@,
                k@ == key@,
                rs == old(self)@,
                d == detach(rs, anchor@, key@),
                i <= self.repos@.len(),
                self@.len() == rs.len(),
                forall|j: int| 0 <= j < i ==> self@[j] == d[j],
                forall|j: int| i <= j < rs.len() ==> self@[j] == rs[j],
                detached == exists|j: int| 0 <= j < i && rs[j].0 != key@ && (#[trigger] rs[j].2).contains(anchor@),
            decreases self.repos@.len() - i,
        {
            let ghost before = self@;
            assert(before[i as int] == self.repos@[i as int]@);
            if self.repos[i].key != k {
                let (na, removed) = remove_string(&self.repos[i].anchors, &a);
                if removed {
                    let nr = Repo {
                        key: self.repos[i].key.clone(),
                        identity: copy_opt(&self.repos[i].identity),
                        anchors: na,
                    };
                    self.repos[i] = nr;
                    detached = true;
                    proof {
                        assert(self@ =~= before.update(i as int, d[i as int]));
                    }
                } else {
                    proof {
                        lemma_without_noop(rs[i as int].2, anchor@);
                    }
                }
            }
            proof {
                if !(rs[i as int].0 != key@ && rs[i as int].2.contains(anchor@)) {
                    if rs[i as int].0 != key@ {
                        lemma_without_noop(rs[i as int].2, anchor@);
                    }
                }
                assert(self@[i as int] == d[i as int]);
                if exists|j: int| 0 <= j < i + 1 && rs[j].0 != key@ && (#[trigger] rs[j].2).contains(anchor@) {
                    let j = choose|j: int| 0 <= j < i + 1 && rs[j].0 != key@ && (#[trigger] rs[j].2).contains(anchor@);
                    if j < i {
                        assert(detached);
                    }
                }
            }
            i += 1;
        }
        proof {
            assert(self@ =~= d);
            lemma_first_with_key(d, key@);
        }
        let mut idx: usize = 0;
        while idx < self.repos.len() && self.repos[idx].key != k
            invariant
                k@ == key@,
                self@ == d,
                idx <= self.repos@.len(),
                forall|j: int| 0 <= j < idx ==> #[trigger] d[j].0 != key@,
            decreases self.repos@.len() - idx,
        {
            idx += 1;
        }
        let created = idx == self.repos.len();
        if created {
            let nr = Repo { key: k.clone(), identity: None, anchors: Vec::new() };
            assert(nr@.2 =~= Seq::<Seq<char>>::empty());
            let ghost before = self@;
            self.repos.push(nr);
            proof {
                assert(self@ =~= before.push(nr@));
                assert(self@ =~= d.push((key@, None, Seq::<Seq<char>>::empty())));
            }
        } else {
            proof {
                assert(d[idx as int] == self.repos@[idx as int]@);
            }
        }
        let ghost es = self@;
        proof {
            assert(first_with_key(d, key@) == (if created { None } else { Some(idx as int) }));
        }
        let listed = has_string(&self.repos[idx].anchors, &a);
        let need_ident = self.repos[idx].identity.is_none() && identity.is_some();
        if !listed || need_ident {
            let mut anchors = copy_strings(&self.repos[idx].anchors);
            if !listed {
                let ghost b = str_views(anchors@);
                anchors.push(a.clone());
                proof {
                    assert(str_views(anchors@) =~= b.push(anchor@));
                }
            }
            let ident = if need_ident {
                identity
            } else {
                copy_opt(&self.repos[idx].identity)
            };
            let nr = Repo { key: self.repos[idx].key.clone(), identity: ident, anchors };
            self.repos[idx] = nr;
            proof {
                assert(self@ =~= es.update(idx as int, nr@));
            }
        } else {
            proof {
                assert(es.update(idx as int, es[idx as int]) =~= es);
            }
        }
        proof {
            assert(self@ == link_spec(rs, anchor@, key@, opt_str(identity)));
            let changed = detached || created || !listed || need_ident;
            if detached {
                let j = choose|j: int| 0 <= j < rs.len() && rs[j].0 != key@ && (#[trigger] rs[j].2).contains(anchor@);
                lemma_without(rs[j].2, anchor@, anchor@);
                assert(j != idx);
                assert(self@[j] == d[j]);
                assert(self@[j].2.len() != rs[j].2.len());
            } else if created {
                assert(self@.len() != rs.len());
            } else {
                assert forall|j: int| 0 <= j < rs.len() implies d[j] == rs[j] by {
                    if rs[j].0 != key@ {
                        if rs[j].2.contains(anchor@) {
                            assert(detached);
                        }
                        lemma_without_noop(rs[j].2, anchor@);
                    }
                }
                assert(d =~= rs);
                if !listed {
                    assert(self@[idx as int].2.len() != rs[idx as int].2.len());
                } else if need_ident {
                    assert(self@[idx as int].1 != rs[idx as int].1);
                } else {
                    assert(self@ =~= rs);
                }
            }
        }
        detached || created || !listed || need_ident
    }

    /// Remove an anchor's mapping, dropping entries left with neither anchors
    /// nor a store on disk (`live_stores` lists the keys whose store exists).
    /// Returns the key of the last entry that listed the anchor.
    pub fn unlink(&mut self, anchor: &str, live_stores: &Vec<String>) -> (r: Option<String>)
        ensures
            final(self)@ == unlink_spec(old(self)@, anchor@, str_views(live_stores@)),
            opt_str(r) == match last_with_anchor(old(self)@, anchor@) {
                Some(i) => Some(old(self)@[i].0),
                None => None,
            },
    {
        let a = anchor.to_owned();
        let ghost rs = self@;
        let ghost live = str_views(live_stores@);
        let ghost m = rs.map_values(|r: RepoView| (r.0, r.1, without(r.2, anchor@)));
        let mut out: Vec<Repo> = Vec::new();
        let mut hit: Option<String> = None;
        let mut i: usize = 0;
        proof {
            assert(m.take(0) =~= Seq::<RepoView>::empty());
            assert(rs.take(0) =~= Seq::<RepoView>::empty());
            assert(out@.map_values(|r: Repo| r@) =~= Seq::<RepoView>::empty());
        }
        while i < self.repos.len()
            invariant
                a@ == anchor@,
                rs == self@,
                live == str_views(live_stores@),
                m == rs.map_values(|r: RepoView| (r.0, r.1, without(r.2, anchor@))),
                i <= self.repos@.len(),
                out@.map_values(|r: Repo| r@) == keep_live(m.take(i as int), live),
                opt_str(hit) == match last_with_anchor(rs.take(i as int), anchor@) {
                    Some(j) => Some(rs[j].0),
                    None => None,
                },
            decreases self.repos@.len() - i,
        {
            proof {
                assert(m.take(i + 1).drop_last() =~= m.take(i as int));
                assert(rs.take(i + 1).drop_last() =~= rs.take(i as int));
                assert(rs[i as int] == self.repos@[i as int]@);
            }
            let r = &self.repos[i];
            let (na, removed) = remove_string(&r.anchors, &a);
            if removed {
                hit = Some(r.key.clone());
            }
            if na.len() > 0 || has_string(live_stores, &r.key) {
                let ghost before = out@.map_values(|r: Repo| r@);
                let nr = Repo { key: r.key.clone(), identity: copy_opt(&r.identity), anchors: na };
                out.push(nr);
                proof {
                    assert(out@.map_values(|r: Repo| r@) =~= before.push(m[i as int]));
                }
            }
            i += 1;
        }
        proof {
            assert(m.take(i as int) =~= m);
            assert(rs.take(i as int) =~= rs);
        }
        self.repos = out;
        hit
    }

    /// Drop anchors that no longer exist (`existing` lists the anchors still on
    /// disk) and entries with neither anchors nor a live store. Returns whether
    /// anything changed.
    pub fn prune(&mut self, existing: &Vec<String>, live_stores: &Vec<String>) -> (changed: bool)
        ensures
            final(self)@ == prune_spec(old(self)@, str_views(existing@), str_views(live_stores@)),
            changed == (final(self)@ != old(self)@),
    {
        let ghost rs = self@;
        let ghost ex = str_views(existing@);
        let ghost live = str_views(live_stores@);
        let ghost m = rs.map_values(|r: RepoView| (r.0, r.1, existing_only(r.2, ex)));
        let mut out: Vec<Repo> = Vec::new();
        let mut dropped_anchor = false;
        let mut i: usize = 0;
        proof {
            assert(m.take(0) =~= Seq::<RepoView>::empty());
            assert(out@.map_values(|r: Repo| r@) =~= Seq::<RepoView>::empty());
        }
        while i < self.repos.len()
            invariant
                rs == self@,
                ex == str_views(existing@),
                live == str_views(live_stores@),
                m == rs.map_values(|r: RepoView| (r.0, r.1, existing_only(r.2, ex))),
                i <= self.repos@.len(),
                out@.map_values(|r: Repo| r@) == keep_live(m.take(i as int), live),
                dropped_anchor == exists|j: int| 0 <= j < i && #[trigger] m[j] != rs[j],
            decreases self.repos@.len() - i,
        {
            proof {
                assert(m.take(i + 1).drop_last() =~= m.take(i as int));
                assert(rs[i as int] == self.repos@[i as int]@);
                lemma_existing_only_len(rs[i as int].2, ex);
            }
            let r = &self.repos[i];
            let na = keep_existing(&r.anchors, existing);
            if na.len() != r.anchors.len() {
                dropped_anchor = true;
            }
            proof {
                if exists|j: int| 0 <= j < i + 1 && #[trigger] m[j] != rs[j] {
                    let j = choose|j: int| 0 <= j < i + 1 && #[trigger] m[j] != rs[j];
                    if j < i {
                        assert(dropped_anchor);
                    }
                }
                if na@.len() != r.anchors@.len() {
                    assert(m[i as int] != rs[i as int]);
                }
            }
            if na.len() > 0 || has_string(live_stores, &r.key) {
                let ghost before = out@.map_values(|r: Repo| r@);
                let nr = Repo { key: r.key.clone(), identity: copy_opt(&r.identity), anchors: na };
                out.push(nr);
                proof {
                    assert(out@.map_values(|r: Repo| r@) =~= before.push(m[i as int]));
                }
            }
            i += 1;
        }
        proof {
            assert(m.take(i as int) =~= m);
        }
        let changed = dropped_anchor || out.len() != self.repos.len();
        self.repos = out;
        proof {
            lemma_keep_live_len(m, live);
            if dropped_anchor {
                let j = choose|j: int| 0 <= j < rs.len() && #[trigger] m[j] != rs[j];
                if self@.len() == rs.len() {
                    assert(self@ == m);
                    assert(self@[j] != rs[j]);
                }
            } else if self@.len() == rs.len() {
                assert(m =~= rs);
                assert(self@ == rs);
            }
        }
        changed
    }
}


// ---------------------------------------------------------------------------
// Laws of the registry
// ---------------------------------------------------------------------------

proof fn lemma_first_with_anchor(rs: Seq<RepoView>, a: Seq<char>)
    ensures
        match first_with_anchor(rs, a) {
            Some(i) => 0 <= i < rs.len() && rs[i].2.contains(a) && forall|j: int|
                0 <= j < i ==> !(#[trigger] rs[j].2).contains(a),
            None => forall|j: int| 0 <= j < rs.len() ==> !(#[trigger] rs[j].2).contains(a),
        },
    decreases rs.len(),
{
    if rs.len() > 0 && !rs[0].2.contains(a) {
        lemma_first_with_anchor(rs.drop_first(), a);
        assert forall|j: int| 1 <= j < rs.len() implies rs[j].2 == rs.drop_first()[j - 1].2 by {}
    }
}

/// Lookups only see keys and which entries list the anchor.
proof fn lemma_key_for_same(rs: Seq<RepoView>, m: Seq<RepoView>, x: Seq<char>)
    requires
        rs.len() == m.len(),
        forall|i: int| 0 <= i < rs.len() ==> #[trigger] rs[i].0 == m[i].0,
        forall|i: int| 0 <= i < rs.len() ==> ((#[trigger] rs[i].2).contains(x) <==> m[i].2.contains(x)),
    ensures
        key_for(rs, x) == key_for(m, x),
    decreases rs.len(),
{
    if rs.len() > 0 {
        assert(rs[0].0 == m[0].0);
        assert(rs[0].2.contains(x) <==> m[0].2.contains(x));
        assert forall|i: int| 0 <= i < rs.drop_first().len() implies #[trigger] rs.drop_first()[i].0 == m.drop_first()[i].0 by {
            assert(rs[i + 1].0 == m[i + 1].0);
        }
        assert forall|i: int| 0 <= i < rs.drop_first().len() implies ((#[trigger] rs.drop_first()[i].2).contains(x) <==> m.drop_first()[i].2.contains(x)) by {
            assert(rs[i + 1].2.contains(x) <==> m[i + 1].2.contains(x));
        }
        lemma_key_for_same(rs.drop_first(), m.drop_first(), x);
        lemma_first_with_anchor(rs.drop_first(), x);
        lemma_first_with_anchor(m.drop_first(), x);
        match first_with_anchor(rs.drop_first(), x) {
            Some(j) => {
                assert(rs[j + 1].0 == rs.drop_first()[j].0);
            },
            None => {},
        }
        match first_with_anchor(m.drop_first(), x) {
            Some(j) => {
                assert(m[j + 1].0 == m.drop_first()[j].0);
            },
            None => {},
        }
    }
}

proof fn lemma_key_for_push(s: Seq<RepoView>, e: RepoView, x: Seq<char>)
    ensures
        key_for(s.push(e), x) == match key_for(s, x) {
            Some(k) => Some(k),
            None => if e.2.contains(x) { Some(e.0) } else { None },
        },
    decreases s.len(),
{
    let t = s.push(e);
    if s.len() == 0 {
        assert(t[0] == e);
        assert(t.drop_first() =~= Seq::<RepoView>::empty());
        assert(first_with_anchor(t.drop_first(), x) == first_with_anchor(Seq::<RepoView>::empty(), x));
    } else {
        assert(t[0] == s[0]);
        assert(t.drop_first() =~= s.drop_first().push(e));
        lemma_key_for_push(s.drop_first(), e, x);
        lemma_first_with_anchor(s.drop_first().push(e), x);
        lemma_first_with_anchor(s.drop_first(), x);
        if !s[0].2.contains(x) {
            assert(first_with_anchor(t, x) == shift(first_with_anchor(s.drop_first().push(e), x), 1));
            assert(first_with_anchor(s, x) == shift(first_with_anchor(s.drop_first(), x), 1));
            match first_with_anchor(s.drop_first().push(e), x) {
                Some(j) => {
                    assert(t[j + 1] == s.drop_first().push(e)[j]);
                },
                None => {},
            }
            match first_with_anchor(s.drop_first(), x) {
                Some(j) => {
                    assert(s[j + 1] == s.drop_first()[j]);
                },
                None => {},
            }
        }
    }
}

proof fn lemma_key_for_keep_live(m: Seq<RepoView>, live: Seq<Seq<char>>, x: Seq<char>)
    ensures
        key_for(keep_live(m, live), x) == key_for(m, x),
    decreases m.len(),
{
    if m.len() > 0 {
        lemma_key_for_keep_live(m.drop_last(), live, x);
        assert(m.drop_last().push(m.last()) =~= m);
        lemma_key_for_push(m.drop_last(), m.last(), x);
        if m.last().2.len() > 0 || live.contains(m.last().0) {
            lemma_key_for_push(keep_live(m.drop_last(), live), m.last(), x);
        } else {
            assert(!m.last().2.contains(x));
        }
    }
}

proof fn lemma_key_for_none(m: Seq<RepoView>, x: Seq<char>)
    requires
        forall|i: int| 0 <= i < m.len() ==> !(#[trigger] m[i].2).contains(x),
    ensures
        key_for(m, x) is None,
{
    lemma_first_with_anchor(m, x);
}

/// The facts about a linked registry the laws rest on: every entry that lists
/// the anchor has the linked key, and one does.
proof fn lemma_link_shape(rs: Seq<RepoView>, a: Seq<char>, k: Seq<char>, id: Option<Seq<char>>)
    ensures
        ({
            let l = link_spec(rs, a, k, id);
            &&& forall|j: int| 0 <= j < l.len() && (#[trigger] l[j].2).contains(a) ==> l[j].0 == k
            &&& exists|j: int| 0 <= j < l.len() && (#[trigger] l[j].2).contains(a)
        }),
{
    let d = detach(rs, a, k);
    let l = link_spec(rs, a, k, id);
    lemma_first_with_key(d, k);
    let i = match first_with_key(d, k) {
        Some(i) => i,
        None => d.len() as int,
    };
    assert forall|j: int| 0 <= j < l.len() && (#[trigger] l[j].2).contains(a) implies l[j].0 == k by {
        if j != i {
            assert(l[j] == d[j]);
            if rs[j].0 != k {
                lemma_without(rs[j].2, a, a);
                assert(d[j].2 == without(rs[j].2, a));
            }
        }
    }
    let e = if first_with_key(d, k) is Some { d[i] } else { (k, None, Seq::<Seq<char>>::empty()) };
    assert(l[i].2 == (if e.2.contains(a) { e.2 } else { e.2.push(a) }));
    if !e.2.contains(a) {
        assert(e.2.push(a)[e.2.len() as int] == a);
    }
    assert(l[i].2.contains(a));
}

/// After `link(a, k)`, anchor `a` resolves to store `k`.
pub proof fn lemma_link_maps_anchor(rs: Seq<RepoView>, a: Seq<char>, k: Seq<char>, id: Option<Seq<char>>)
    ensures
        key_for(link_spec(rs, a, k, id), a) == Some(k),
{
    let l = link_spec(rs, a, k, id);
    lemma_link_shape(rs, a, k, id);
    lemma_first_with_anchor(l, a);
}

/// The store key of the local KB of the repo at `anchor`: the registry's
/// mapping when it has one (a linked clone shares the store it was linked
/// to), else the key derived from the anchor's path.
pub open spec fn local_key_spec(rs: Seq<RepoView>, anchor: Seq<char>) -> Seq<char> {
    match key_for(rs, anchor) {
        Some(k) => k,
        None => project_key_spec(anchor),
    }
}

/// The store key of the local KB of the repo at `anchor`.
pub fn local_key(reg: &Registry, anchor: &str) -> (r: String)
    ensures
        r@ == local_key_spec(reg@, anchor@),
{
    match reg.key_for_anchor(anchor) {
        Some(k) => k,
        None => project_key(anchor),
    }
}

/// The local store directory of the repo at `anchor` under `projects_root`:
/// named by the registry's key for it, else by the key derived from its path.
pub fn local_dir(projects_root: Option<&str>, reg: &Registry, anchor: &str) -> (r: Option<String>)
    ensures
        match projects_root {
            Some(p) => r matches Some(x) && x@ == join_path(p@, local_key_spec(reg@, anchor@)),
            None => r is None,
        },
{
    match projects_root {
        Some(p) => {
            let key = local_key(reg, anchor);
            Some(join_path_exec(p, key.as_str()))
        },
        None => None,
    }
}

/// A clone linked to store `k` finds that store: its local key is `k`.
pub proof fn lemma_linked_clone_key(rs: Seq<RepoView>, a: Seq<char>, k: Seq<char>, id: Option<Seq<char>>)
    ensures
        local_key_spec(link_spec(rs, a, k, id), a) == k,
{
    lemma_link_maps_anchor(rs, a, k, id);
}

/// The identity recorded for store `k`, if it has an entry and one.
pub open spec fn key_identity(rs: Seq<RepoView>, k: Seq<char>) -> Option<Seq<char>> {
    match first_with_key(rs, k) {
        Some(i) => rs[i].1,
        None => None,
    }
}

/// What `link(a, k, id)` leaves, for any registry: `a` resolves to `k`, no
/// entry of another store lists `a`, and the store keeps an identity it had,
/// taking `id` only when it had none.
pub proof fn lemma_link_law(rs: Seq<RepoView>, a: Seq<char>, k: Seq<char>, id: Option<Seq<char>>)
    ensures
        key_for(link_spec(rs, a, k, id), a) == Some(k),
        forall|j: int| 0 <= j < link_spec(rs, a, k, id).len() && (#[trigger] link_spec(rs, a, k, id)[j]).2.contains(a)
            ==> link_spec(rs, a, k, id)[j].0 == k,
        key_identity(link_spec(rs, a, k, id), k)
            == (if key_identity(rs, k) is None && id is Some { id } else { key_identity(rs, k) }),
{
    lemma_link_maps_anchor(rs, a, k, id);
    lemma_link_shape(rs, a, k, id);
    let d = detach(rs, a, k);
    let l = link_spec(rs, a, k, id);
    lemma_first_with_key(d, k);
    lemma_first_with_key(rs, k);
    lemma_first_with_key(l, k);
    // Detaching keeps every key and identity, so the first entry of `k` is the same.
    assert(first_with_key(d, k) == first_with_key(rs, k)) by {
        match first_with_key(rs, k) {
            Some(i) => {
                assert(d[i].0 == rs[i].0);
                match first_with_key(d, k) {
                    Some(j) => {
                        if j < i { assert(rs[j].0 == d[j].0); }
                        if i < j { assert(d[i].0 == k); }
                    },
                    None => { assert(d[i].0 == k); },
                }
            },
            None => {
                match first_with_key(d, k) {
                    Some(j) => { assert(rs[j].0 == d[j].0); },
                    None => {},
                }
            },
        }
    }
    let i = match first_with_key(d, k) {
        Some(i) => i,
        None => d.len() as int,
    };
    assert(l[i].0 == k);
    assert forall|j: int| 0 <= j < i implies #[trigger] l[j].0 != k by {
        assert(l[j] == d[j]);
    }
    assert(first_with_key(l, k) == Some(i)) by {
        match first_with_key(l, k) {
            Some(j) => {
                if j < i { assert(l[j].0 != k); }
                if i < j { assert(l[i].0 == k); }
            },
            None => { assert(l[i].0 == k); },
        }
    }
    if first_with_key(rs, k) is Some {
        assert(d[i].1 == rs[i].1);
    }
}

/// Linking the same anchor to the same store again changes nothing.
pub proof fn lemma_link_idempotent(rs: Seq<RepoView>, a: Seq<char>, k: Seq<char>, id: Option<Seq<char>>)
    ensures
        link_spec(link_spec(rs, a, k, id), a, k, id) == link_spec(rs, a, k, id),
{
    let d = detach(rs, a, k);
    let l = link_spec(rs, a, k, id);
    lemma_first_with_key(d, k);
    lemma_link_shape(rs, a, k, id);
    let i = match first_with_key(d, k) {
        Some(i) => i,
        None => d.len() as int,
    };
    // Detaching again is a no-op: no other store lists the anchor.
    let d2 = detach(l, a, k);
    assert forall|j: int| 0 <= j < l.len() implies d2[j] == l[j] by {
        if l[j].0 != k {
            assert(!l[j].2.contains(a));
            lemma_without_noop(l[j].2, a);
        }
    }
    assert(d2 =~= l);
    // The linked entry is found at the same place.
    assert(l[i].0 == k);
    assert forall|j: int| 0 <= j < i implies #[trigger] l[j].0 != k by {
        assert(l[j] == d[j]);
    }
    lemma_first_with_key(l, k);
    assert(first_with_key(l, k) == Some(i)) by {
        match first_with_key(l, k) {
            Some(f) => {
                if f < i {
                    assert(l[f].0 != k);
                }
                if f > i {
                    assert(l[i].0 != k);
                }
            },
            None => {
                assert(l[i].0 != k);
            },
        }
    }
    let e = l[i];
    assert(e.2.contains(a)) by {
        let e0 = if first_with_key(d, k) is Some { d[i] } else { (k, None, Seq::<Seq<char>>::empty()) };
        if !e0.2.contains(a) {
            assert(e0.2.push(a)[e0.2.len() as int] == a);
        }
    }
    assert(!(e.1 is None && id is Some));
    assert(l.update(i, (e.0, e.1, e.2)) =~= l);
}

/// Dropping an anchor unmaps it and leaves every other anchor's store as it
/// was.
pub proof fn lemma_unlink_unmaps(rs: Seq<RepoView>, a: Seq<char>, live: Seq<Seq<char>>, x: Seq<char>)
    ensures
        key_for(unlink_spec(rs, a, live), a) is None,
        x != a ==> key_for(unlink_spec(rs, a, live), x) == key_for(rs, x),
{
    let m = rs.map_values(|r: RepoView| (r.0, r.1, without(r.2, a)));
    lemma_key_for_keep_live(m, live, a);
    lemma_key_for_keep_live(m, live, x);
    assert forall|i: int| 0 <= i < m.len() implies !(#[trigger] m[i].2).contains(a) by {
        lemma_without(rs[i].2, a, a);
    }
    lemma_key_for_none(m, a);
    if x != a {
        assert forall|i: int| 0 <= i < rs.len() implies ((#[trigger] rs[i].2).contains(x) <==> m[i].2.contains(x)) by {
            lemma_without(rs[i].2, a, x);
        }
        assert forall|i: int| 0 <= i < rs.len() implies #[trigger] rs[i].0 == m[i].0 by {}
        lemma_key_for_same(rs, m, x);
    }
}

proof fn lemma_last_with_anchor(rs: Seq<RepoView>, a: Seq<char>)
    ensures
        match last_with_anchor(rs, a) {
            Some(i) => 0 <= i < rs.len() && rs[i].2.contains(a),
            None => forall|j: int| 0 <= j < rs.len() ==> !(#[trigger] rs[j].2).contains(a),
        },
    decreases rs.len(),
{
    if rs.len() > 0 && !rs.last().2.contains(a) {
        lemma_last_with_anchor(rs.drop_last(), a);
        if last_with_anchor(rs.drop_last(), a) is None {
            assert forall|j: int| 0 <= j < rs.len() implies !(#[trigger] rs[j].2).contains(a) by {
                assert(rs[rs.len() - 1] == rs.last());
                if j < rs.len() - 1 {
                    assert(rs[j] == rs.drop_last()[j]);
                }
            }
        } else {
            let i = last_with_anchor(rs.drop_last(), a).unwrap();
            assert(rs[i] == rs.drop_last()[i]);
        }
    }
}

/// Dropping an anchor right after linking it reports the store it was
/// linked to.
pub proof fn lemma_unlink_reports_link(rs: Seq<RepoView>, a: Seq<char>, k: Seq<char>, id: Option<Seq<char>>)
    ensures
        ({
            let l = link_spec(rs, a, k, id);
            last_with_anchor(l, a) matches Some(i) && l[i].0 == k
        }),
{
    let l = link_spec(rs, a, k, id);
    lemma_link_shape(rs, a, k, id);
    lemma_last_with_anchor(l, a);
}

/// Pruning keeps the mapping of every anchor that still exists and unmaps
/// the others.
pub proof fn lemma_prune_keeps_live_anchors(rs: Seq<RepoView>, existing: Seq<Seq<char>>, live: Seq<Seq<char>>, x: Seq<char>)
    ensures
        key_for(prune_spec(rs, existing, live), x) == (if existing.contains(x) { key_for(rs, x) } else { None }),
{
    let m = rs.map_values(|r: RepoView| (r.0, r.1, existing_only(r.2, existing)));
    lemma_key_for_keep_live(m, live, x);
    assert forall|i: int| 0 <= i < rs.len() implies (m[i].2.contains(x) <==> ((#[trigger] rs[i].2).contains(x) && existing.contains(x))) by {
        lemma_existing_only_contains(rs[i].2, existing, x);
    }
    if existing.contains(x) {
        assert forall|i: int| 0 <= i < rs.len() implies #[trigger] rs[i].0 == m[i].0 by {}
        assert forall|i: int| 0 <= i < rs.len() implies ((#[trigger] rs[i].2).contains(x) <==> m[i].2.contains(x)) by {}
        lemma_key_for_same(rs, m, x);
    } else {
        assert forall|i: int| 0 <= i < m.len() implies !(#[trigger] m[i].2).contains(x) by {
            assert(m[i].2.contains(x) <==> (rs[i].2.contains(x) && existing.contains(x)));
        }
        lemma_key_for_none(m, x);
    }
}

proof fn lemma_existing_only_contains(s: Seq<Seq<char>>, e: Seq<Seq<char>>, x: Seq<char>)
    ensures
        existing_only(s, e).contains(x) <==> (s.contains(x) && e.contains(x)),
    decreases s.len(),
{
    if s.len() > 0 {
        lemma_existing_only_contains(s.drop_last(), e, x);
        let r = existing_only(s.drop_last(), e);
        if s.drop_last().contains(x) {
            let i = choose|i: int| 0 <= i < s.drop_last().len() && s.drop_last()[i] == x;
            assert(s[i] == x);
        }
        if s.contains(x) {
            let i = choose|i: int| 0 <= i < s.len() && s[i] == x;
            if i < s.len() - 1 {
                assert(s.drop_last()[i] == x);
            }
        }
        if e.contains(s.last()) {
            if r.push(s.last()).contains(x) {
                let i = choose|i: int| 0 <= i < r.push(s.last()).len() && r.push(s.last())[i] == x;
                if i < r.len() {
                    assert(r[i] == x);
                }
            }
            if r.contains(x) {
                let i = choose|i: int| 0 <= i < r.len() && r[i] == x;
                assert(r.push(s.last())[i] == x);
            }
            if x == s.last() {
                assert(r.push(s.last())[r.len() as int] == x);
            }
        }
        assert(s[s.len() - 1] == s.last());
    }
}

/// Linking keeps the registry well formed: distinct keys, and every anchor
/// mapped to at most one store.
pub proof fn lemma_link_wf(rs: Seq<RepoView>, a: Seq<char>, k: Seq<char>, id: Option<Seq<char>>)
    requires
        registry_wf(rs),
    ensures
        registry_wf(link_spec(rs, a, k, id)),
{
    let d = detach(rs, a, k);
    let l = link_spec(rs, a, k, id);
    lemma_first_with_key(d, k);
    lemma_link_shape(rs, a, k, id);
    let i = match first_with_key(d, k) {
        Some(i) => i,
        None => d.len() as int,
    };
    assert forall|p: int| 0 <= p < l.len() implies #[trigger] l[p].0 == (if p < rs.len() { rs[p].0 } else { k }) by {}
    assert forall|p: int, q: int| 0 <= p < q < l.len() implies #[trigger] l[p].0 != #[trigger] l[q].0 by {
        if q == rs.len() {
            assert(first_with_key(d, k) is None);
            assert(d[p].0 != k);
        } else {
            assert(rs[p].0 != rs[q].0);
        }
    }
    assert forall|p: int, q: int, x: Seq<char>|
        #![trigger l[p].2.contains(x), l[q].2.contains(x)]
        0 <= p < l.len() && 0 <= q < l.len() && p != q && l[p].2.contains(x) implies !l[q].2.contains(x) by {
        if l[q].2.contains(x) {
            if x == a {
                assert(l[p].0 == k && l[q].0 == k);
            } else {
                // Away from the linked anchor, membership is as before.
                lemma_link_member(rs, a, k, id, p, x);
                lemma_link_member(rs, a, k, id, q, x);
                if p < rs.len() && q < rs.len() {
                    assert(rs[p].2.contains(x) && rs[q].2.contains(x));
                }
            }
        }
    }
}

/// An entry of a linked registry lists `x != a` exactly when it did before
/// (a new entry lists nothing else).
proof fn lemma_link_member(rs: Seq<RepoView>, a: Seq<char>, k: Seq<char>, id: Option<Seq<char>>, p: int, x: Seq<char>)
    requires
        x != a,
        0 <= p < link_spec(rs, a, k, id).len(),
    ensures
        link_spec(rs, a, k, id)[p].2.contains(x) <==> (p < rs.len() && rs[p].2.contains(x)),
{
    let d = detach(rs, a, k);
    let l = link_spec(rs, a, k, id);
    lemma_first_with_key(d, k);
    let i = match first_with_key(d, k) {
        Some(i) => i,
        None => d.len() as int,
    };
    let e = if first_with_key(d, k) is Some { d[i] } else { (k, None, Seq::<Seq<char>>::empty()) };
    if p < rs.len() {
        lemma_without(rs[p].2, a, x);
    }
    if p == i {
        if !e.2.contains(a) {
            if e.2.push(a).contains(x) {
                let j = choose|j: int| 0 <= j < e.2.push(a).len() && e.2.push(a)[j] == x;
                assert(j < e.2.len());
                assert(e.2[j] == x);
            }
            if e.2.contains(x) {
                let j = choose|j: int| 0 <= j < e.2.len() && e.2[j] == x;
                assert(e.2.push(a)[j] == x);
            }
        }
    }
}


/// Dropping entries keeps the registry well formed; every kept entry was there.
proof fn lemma_keep_live_wf(rs: Seq<RepoView>, live: Seq<Seq<char>>)
    requires
        registry_wf(rs),
    ensures
        registry_wf(keep_live(rs, live)),
        forall|e: RepoView| keep_live(rs, live).contains(e) ==> rs.contains(e),
    decreases rs.len(),
{
    if rs.len() > 0 {
        let init = rs.drop_last();
        let n = rs.len() - 1;
        assert forall|i: int, j: int| 0 <= i < j < init.len() implies #[trigger] init[i].0 != #[trigger] init[j].0 by {
            assert(init[i] == rs[i] && init[j] == rs[j]);
        }
        assert forall|i: int, j: int, x: Seq<char>|
            #![trigger init[i].2.contains(x), init[j].2.contains(x)]
            0 <= i < init.len() && 0 <= j < init.len() && i != j && init[i].2.contains(x)
            implies !init[j].2.contains(x) by {
            assert(init[i] == rs[i] && init[j] == rs[j]);
            if rs[i].2.contains(x) && rs[j].2.contains(x) {}
        }
        lemma_keep_live_wf(init, live);
        let rest = keep_live(init, live);
        let last = rs.last();
        // Each kept entry comes from before the last one.
        assert forall|i: int| #![trigger rest[i]] 0 <= i < rest.len() implies exists|j: int| 0 <= j < n && #[trigger] rs[j] == rest[i] by {
            assert(rest.contains(rest[i]));
            assert(init.contains(rest[i]));
            let j = choose|j: int| 0 <= j < init.len() && init[j] == rest[i];
            assert(rs[j] == init[j]);
        }
        if last.2.len() > 0 || live.contains(last.0) {
            let out = rest.push(last);
            assert(keep_live(rs, live) == out);
            assert forall|i: int, j: int| 0 <= i < j < out.len() implies #[trigger] out[i].0 != #[trigger] out[j].0 by {
                if j == rest.len() {
                    let p = choose|p: int| 0 <= p < n && #[trigger] rs[p] == rest[i];
                    assert(rs[p].0 != rs[n].0);
                    assert(out[i] == rest[i]);
                } else {
                    assert(out[i] == rest[i] && out[j] == rest[j]);
                }
            }
            assert forall|i: int, j: int, x: Seq<char>|
                #![trigger out[i].2.contains(x), out[j].2.contains(x)]
                0 <= i < out.len() && 0 <= j < out.len() && i != j && out[i].2.contains(x)
                implies !out[j].2.contains(x) by {
                if i < rest.len() && j < rest.len() {
                    assert(out[i] == rest[i] && out[j] == rest[j]);
                    if rest[i].2.contains(x) && rest[j].2.contains(x) {}
                } else if j == rest.len() {
                    let p = choose|p: int| 0 <= p < n && #[trigger] rs[p] == rest[i];
                    assert(out[i] == rs[p] && out[j] == rs[n]);
                    if rs[p].2.contains(x) && rs[n].2.contains(x) {}
                } else {
                    let q = choose|q: int| 0 <= q < n && #[trigger] rs[q] == rest[j];
                    assert(out[j] == rs[q] && out[i] == rs[n]);
                    if rs[n].2.contains(x) && rs[q].2.contains(x) {}
                }
            }
            assert forall|e: RepoView| out.contains(e) implies rs.contains(e) by {
                let i = choose|i: int| 0 <= i < out.len() && out[i] == e;
                if i < rest.len() {
                    assert(out[i] == rest[i]);
                    let p = choose|p: int| 0 <= p < n && #[trigger] rs[p] == rest[i];
                    assert(rs[p] == e);
                } else {
                    assert(rs[n] == e);
                }
            }
        } else {
            assert(keep_live(rs, live) == rest);
            assert forall|e: RepoView| rest.contains(e) implies rs.contains(e) by {
                let i = choose|i: int| 0 <= i < rest.len() && rest[i] == e;
                let p = choose|p: int| 0 <= p < n && #[trigger] rs[p] == rest[i];
            }
        }
    }
}

/// Shrinking every entry's anchors keeps the registry well formed.
proof fn lemma_shrink_wf(rs: Seq<RepoView>, out: Seq<RepoView>)
    requires
        registry_wf(rs),
        out.len() == rs.len(),
        forall|i: int| 0 <= i < rs.len() ==> (#[trigger] out[i]).0 == rs[i].0,
        forall|i: int, x: Seq<char>| 0 <= i < rs.len() && (#[trigger] out[i].2.contains(x)) ==> rs[i].2.contains(x),
    ensures
        registry_wf(out),
{
    assert forall|i: int, j: int| 0 <= i < j < out.len() implies #[trigger] out[i].0 != #[trigger] out[j].0 by {
        assert(rs[i].0 != rs[j].0);
    }
    assert forall|i: int, j: int, x: Seq<char>|
        #![trigger out[i].2.contains(x), out[j].2.contains(x)]
        0 <= i < out.len() && 0 <= j < out.len() && i != j && out[i].2.contains(x)
        implies !out[j].2.contains(x) by {
        if out[j].2.contains(x) {
            assert(rs[i].2.contains(x) && rs[j].2.contains(x));
        }
    }
}

/// Keeping only anchors that exist keeps a subset of them.
proof fn lemma_existing_only(anchors: Seq<Seq<char>>, existing: Seq<Seq<char>>, x: Seq<char>)
    ensures
        existing_only(anchors, existing).contains(x) ==> anchors.contains(x),
    decreases anchors.len(),
{
    if anchors.len() > 0 {
        let init = anchors.drop_last();
        lemma_existing_only(init, existing, x);
        let rest = existing_only(init, existing);
        if existing_only(anchors, existing).contains(x) {
            if rest.contains(x) {
                let j = choose|j: int| 0 <= j < init.len() && init[j] == x;
                assert(anchors[j] == x);
            } else {
                assert(existing_only(anchors, existing) == rest.push(anchors.last()));
                let j = choose|j: int| 0 <= j < rest.push(anchors.last()).len() && rest.push(anchors.last())[j] == x;
                if j < rest.len() {
                    assert(rest[j] == x);
                }
                assert(anchors[anchors.len() - 1] == x);
            }
        }
    }
}

/// Unlinking keeps the registry well formed.
pub proof fn lemma_unlink_wf(rs: Seq<RepoView>, a: Seq<char>, live: Seq<Seq<char>>)
    requires
        registry_wf(rs),
    ensures
        registry_wf(unlink_spec(rs, a, live)),
{
    let m = rs.map_values(|r: RepoView| (r.0, r.1, without(r.2, a)));
    assert forall|i: int, x: Seq<char>| 0 <= i < rs.len() && (#[trigger] m[i].2.contains(x)) implies rs[i].2.contains(x) by {
        lemma_without(rs[i].2, a, x);
    }
    lemma_shrink_wf(rs, m);
    lemma_keep_live_wf(m, live);
}

/// Pruning keeps the registry well formed.
pub proof fn lemma_prune_wf(rs: Seq<RepoView>, existing: Seq<Seq<char>>, live: Seq<Seq<char>>)
    requires
        registry_wf(rs),
    ensures
        registry_wf(prune_spec(rs, existing, live)),
{
    let m = rs.map_values(|r: RepoView| (r.0, r.1, existing_only(r.2, existing)));
    assert forall|i: int, x: Seq<char>| 0 <= i < rs.len() && (#[trigger] m[i].2.contains(x)) implies rs[i].2.contains(x) by {
        lemma_existing_only(rs[i].2, existing, x);
    }
    lemma_shrink_wf(rs, m);
    lemma_keep_live_wf(m, live);
}

// ---------------------------------------------------------------------------
// Repo identity from git configuration
// ---------------------------------------------------------------------------

/// The `origin` URL among the lines of a git config, given whether the lines
/// start inside the `[remote "origin"]` section.
pub open spec fn origin_in_lines(ls: Seq<Seq<char>>, in_origin: bool) -> Option<Seq<char>>
    decreases ls.len(),
{
    if ls.len() == 0 {
        None
    } else {
        let t = trim(ls[0]);
        if starts_with(t, "["@) {
            origin_in_lines(ls.drop_first(), t == "[remote \"origin\"]"@)
        } else if in_origin && starts_with(t, "url"@) && starts_with(trim_start(t.skip(3)), "="@) {
            Some(trim(trim_start(t.skip(3)).skip(1)))
        } else {
            origin_in_lines(ls.drop_first(), in_origin)
        }
    }
}

/// Extract `[remote "origin"] url = ...` from a git config file.
pub fn parse_origin_url(config_text: &str) -> (r: Option<String>)
    ensures
        opt_str(r) == origin_in_lines(lines(config_text@), false),
{
    let cs = chars_of(config_text);
    let ls = lines_exec(&cs);
    let ghost lv = views(ls@);
    let bracket = chars_of("[");
    let header = chars_of("[remote \"origin\"]");
    let url = chars_of("url");
    let eq = chars_of("=");
    let mut in_origin = false;
    let mut i: usize = 0;
    proof {
        assert(lv.skip(0) =~= lv);
        reveal_strlit("url");
        reveal_strlit("=");
    }
    while i < ls.len()
        invariant
            i <= ls@.len(),
            lv == views(ls@),
            lv == lines(config_text@),
            bracket@ == "["@,
            header@ == "[remote \"origin\"]"@,
            url@ == "url"@,
            eq@ == "="@,
            url@.len() == 3,
            eq@.len() == 1,
            origin_in_lines(lv, false) == origin_in_lines(lv.skip(i as int), in_origin),
        decreases ls@.len() - i,
    {
        let line = &ls[i];
        proof {
            assert(lv.skip(i as int)[0] == line@);
            assert(lv.skip(i as int).drop_first() =~= lv.skip(i + 1));
        }
        let (a, b) = trim_bounds(line, 0, line.len());
        proof {
            assert(line@.subrange(0, line@.len() as int) =~= line@);
        }
        let t = slice_of(line, a, b);
        if starts_with_exec(&t, &bracket) {
            in_origin = seq_eq(&t, &header);
        } else {
            if in_origin && starts_with_exec(&t, &url) {
                let (c, _d) = trim_bounds(&t, 3, t.len());
                let rest = slice_of(&t, c, t.len());
                proof {
                    assert(t@.skip(3) =~= t@.subrange(3, t@.len() as int));
                    assert(rest@ == trim_start(t@.skip(3)));
                }
                if starts_with_exec(&rest, &eq) {
                    let (e, f) = trim_bounds(&rest, 1, rest.len());
                    let v = slice_of(&rest, e, f);
                    proof {
                        assert(rest@.skip(1) =~= rest@.subrange(1, rest@.len() as int));
                    }
                    return Some(string_of(&v));
                }
            }
        }
        i += 1;
    }
    proof {
        assert(lv.skip(i as int) =~= Seq::<Seq<char>>::empty());
    }
    None
}

/// A URL without its scheme, when it has one of the known ones.
pub open spec fn strip_scheme(s: Seq<char>) -> Seq<char> {
    if starts_with(s, "ssh://"@) {
        s.skip(6)
    } else if starts_with(s, "git+ssh://"@) {
        s.skip(10)
    } else if starts_with(s, "https://"@) {
        s.skip(8)
    } else if starts_with(s, "http://"@) {
        s.skip(7)
    } else if starts_with(s, "git://"@) {
        s.skip(6)
    } else {
        s
    }
}

/// A URL without a `user@` that comes before its path.
pub open spec fn strip_user(s: Seq<char>) -> Seq<char> {
    let at = char_index_from(s, '@', 0);
    if at < s.len() && at < char_index_from(s, '/', 0) {
        s.skip(at + 1)
    } else {
        s
    }
}

/// An scp-style `host:path` turned into `host/path`.
pub open spec fn colon_to_slash(s: Seq<char>) -> Seq<char> {
    let colon = char_index_from(s, ':', 0);
    if colon < s.len() && colon < char_index_from(s, '/', 0) {
        s.update(colon, '/')
    } else {
        s
    }
}

/// A URL without trailing slashes and a `.git` suffix.
pub open spec fn strip_git_suffix(s: Seq<char>) -> Seq<char> {
    let a = trim_end_char(s, '/');
    let b = if ends_with(a, ".git"@) { a.take(a.len() - 4) } else { a };
    trim_end_char(b, '/')
}

/// A remote URL without scheme, user, `:` separator and `.git` suffix.
pub open spec fn url_core(url: Seq<char>) -> Seq<char> {
    strip_git_suffix(colon_to_slash(strip_user(strip_scheme(trim(url)))))
}

/// A remote URL as a scheme- and user-agnostic identity: the host lowercased,
/// the path kept as it is.
pub open spec fn normalized_url(url: Seq<char>) -> Seq<char> {
    let s = url_core(url);
    let slash = char_index_from(s, '/', 0);
    if slash < s.len() {
        unicode_lowercase(s.take(slash)) + seq!['/'] + s.skip(slash + 1)
    } else {
        unicode_lowercase(s)
    }
}

/// `normalized_url` for a remote whose core is ASCII: the host's letters
/// lowercased, the path kept as it is.
pub open spec fn ascii_normalized_url(url: Seq<char>) -> Seq<char> {
    let s = url_core(url);
    let slash = char_index_from(s, '/', 0);
    if slash < s.len() {
        lower(s.take(slash)) + seq!['/'] + s.skip(slash + 1)
    } else {
        lower(s)
    }
}

fn strip_prefix_if(s: &Vec<char>, p: &str) -> (r: (Vec<char>, bool))
    ensures
        r.1 == starts_with(s@, p@),
        r.0@ == if r.1 { s@.skip(p@.len() as int) } else { s@ },
{
    let pc = chars_of(p);
    if starts_with_exec(s, &pc) {
        let v = slice_of(s, pc.len(), s.len());
        assert(v@ =~= s@.skip(p@.len() as int));
        (v, true)
    } else {
        (slice_of_all(s), false)
    }
}

fn strip_scheme_exec(t: &Vec<char>) -> (r: Vec<char>)
    ensures
        r@ == strip_scheme(t@),
{
    proof {
        reveal_strlit("ssh://");
        reveal_strlit("git+ssh://");
        reveal_strlit("https://");
        reveal_strlit("http://");
        reveal_strlit("git://");
    }
    let (s1, hit1) = strip_prefix_if(t, "ssh://");
    if hit1 {
        return s1;
    }
    let (s2, hit2) = strip_prefix_if(t, "git+ssh://");
    if hit2 {
        return s2;
    }
    let (s3, hit3) = strip_prefix_if(t, "https://");
    if hit3 {
        return s3;
    }
    let (s4, hit4) = strip_prefix_if(t, "http://");
    if hit4 {
        return s4;
    }
    let (s5, _hit5) = strip_prefix_if(t, "git://");
    s5
}

fn strip_user_exec(s: &Vec<char>) -> (r: Vec<char>)
    ensures
        r@ == strip_user(s@),
{
    let at = char_index_exec(s, '@', 0);
    let sl = char_index_exec(s, '/', 0);
    if at < s.len() && at < sl {
        let v = slice_of(s, at + 1, s.len());
        assert(v@ =~= s@.skip(at + 1));
        v
    } else {
        slice_of_all(s)
    }
}

fn slice_of_all(s: &Vec<char>) -> (r: Vec<char>)
    ensures
        r@ == s@,
{
    let v = slice_of(s, 0, s.len());
    assert(v@ =~= s@);
    v
}

fn colon_exec(s: &Vec<char>) -> (r: Vec<char>)
    ensures
        r@ == colon_to_slash(s@),
{
    let colon = char_index_exec(s, ':', 0);
    let sl = char_index_exec(s, '/', 0);
    let mut v = slice_of_all(s);
    if colon < v.len() && colon < sl {
        v.set(colon, '/');
    }
    v
}

fn strip_git_suffix_exec(s: &Vec<char>) -> (r: Vec<char>)
    ensures
        r@ == strip_git_suffix(s@),
{
    let e1 = trim_end_char_bound(s, 0, s.len(), '/');
    proof {
        assert(s@.subrange(0, s@.len() as int) =~= s@);
    }
    let s1 = slice_of(s, 0, e1);
    let git = chars_of(".git");
    proof {
        reveal_strlit(".git");
    }
    let s2 = if s1.len() >= 4 && seq_eq(&slice_of(&s1, s1.len() - 4, s1.len()), &git) {
        slice_of(&s1, 0, s1.len() - 4)
    } else {
        slice_of_all(&s1)
    };
    proof {
        if s1@.len() >= 4 {
            assert(s1@.skip(s1@.len() - 4) =~= s1@.subrange(s1@.len() - 4, s1@.len() as int));
            assert(s1@.take(s1@.len() - 4) =~= s1@.subrange(0, s1@.len() - 4));
        }
        assert(s2@ == (if ends_with(s1@, ".git"@) { s1@.take(s1@.len() - 4) } else { s1@ }));
    }
    let e2 = trim_end_char_bound(&s2, 0, s2.len(), '/');
    proof {
        assert(s2@.subrange(0, s2@.len() as int) =~= s2@);
    }
    slice_of(&s2, 0, e2)
}

/// Normalize a git remote URL so that scp-style and https forms of one remote
/// give one string: `git@github.com:org/repo.git` and
/// `https://github.com/org/repo` both become `github.com/org/repo`.
pub fn normalize_git_url(url: &str) -> (r: String)
    ensures
        r@ == normalized_url(url@),
        (forall|i: int| 0 <= i < url_core(url@).len() ==> (#[trigger] url_core(url@)[i] as u32) < 128)
            ==> r@ == ascii_normalized_url(url@),
{
    let cs = chars_of(url);
    let (a, b) = trim_bounds(&cs, 0, cs.len());
    proof {
        assert(cs@.subrange(0, cs@.len() as int) =~= cs@);
    }
    let t = slice_of(&cs, a, b);
    let s = strip_scheme_exec(&t);
    let s = strip_user_exec(&s);
    let s = colon_exec(&s);
    let fin = strip_git_suffix_exec(&s);
    let slash = char_index_exec(&fin, '/', 0);
    if slash < fin.len() {
        let host = string_of(&slice_of(&fin, 0, slash));
        proof {
            assert forall|i: int| 0 <= i < host@.len() implies host@[i] == fin@[i] by {}
        }
        let lh = to_lowercase(host.as_str());
        let mut out = chars_of(lh.as_str());
        out.push('/');
        let path = slice_of(&fin, slash + 1, fin.len());
        push_all(&mut out, &path);
        proof {
            assert(fin@.take(slash as int) =~= fin@.subrange(0, slash as int));
            assert(path@ =~= fin@.skip(slash + 1));
        }
        string_of(&out)
    } else {
        let all = string_of(&fin);
        to_lowercase(all.as_str())
    }
}


/// Whether the registry already maps `anchor` to `key` with an identity
/// recorded.
pub open spec fn already_learned(rs: Seq<RepoView>, anchor: Seq<char>, key: Seq<char>) -> bool {
    exists|i: int| 0 <= i < rs.len() && (#[trigger] rs[i]).0 == key && rs[i].1 is Some && rs[i].2.contains(anchor)
}

impl Registry {
    /// Teach the registry a mapping found when a KB was discovered, so a store
    /// made before the registry becomes linkable by identity: nothing changes
    /// when the mapping and an identity are already recorded; otherwise it is
    /// linked. Returns whether anything changed (whether to save).
    pub fn learn(&mut self, anchor: &str, key: &str, identity: Option<String>) -> (changed: bool)
        ensures
            already_learned(old(self)@, anchor@, key@) ==> final(self)@ == old(self)@ && !changed,
            !already_learned(old(self)@, anchor@, key@) ==> final(self)@
                == link_spec(old(self)@, anchor@, key@, opt_str(identity)) && changed == (final(self)@ != old(self)@),
    {
        let a = anchor.to_owned();
        let k = key.to_owned();
        let mut i: usize = 0;
        while i < self.repos.len()
            invariant
                i <= self.repos@.len(),
                a@ == anchor@,
                k@ == key@,
                forall|j: int| 0 <= j < i ==> !((#[trigger] self@[j]).0 == key@ && self@[j].1 is Some
                    && self@[j].2.contains(anchor@)),
            decreases self.repos@.len() - i,
        {
            let r = &self.repos[i];
            proof {
                assert(self@[i as int] == r@);
            }
            if r.key == k && r.identity.is_some() && has_string(&r.anchors, &a) {
                return false;
            }
            i += 1;
        }
        self.link(anchor, key, identity)
    }
}


/// A store on disk as `engrym list` shows it: its key, and the identity and
/// anchors the registry records for it (none when unrecorded).
pub struct StoreView {
    pub key: String,
    pub identity: Option<String>,
    pub anchors: Vec<String>,
}

/// What the registry records of the store `key`.
pub open spec fn store_record(rs: Seq<RepoView>, key: Seq<char>) -> (Option<Seq<char>>, Seq<Seq<char>>) {
    match first_with_key(rs, key) {
        Some(i) => (rs[i].1, rs[i].2),
        None => (None, Seq::empty()),
    }
}

impl Registry {
    /// Whether the store `key` is shared: more than one checkout maps to it.
    pub fn is_shared(&self, key: &str) -> (b: bool)
        ensures
            b == match first_with_key(self@, key@) {
                Some(i) => self@[i].2.len() > 1,
                None => false,
            },
    {
        match self.key_index(key) {
            Some(i) => {
                assert(self@[i as int] == self.repos@[i as int]@);
                self.repos[i].anchors.len() > 1
            },
            None => false,
        }
    }

    /// The first entry with `key`.
    fn key_index(&self, key: &str) -> (r: Option<usize>)
        ensures
            match r {
                Some(i) => i < self.repos@.len() && first_with_key(self@, key@) == Some(i as int),
                None => first_with_key(self@, key@) is None,
            },
    {
        let k = key.to_owned();
        let mut i: usize = 0;
        while i < self.repos.len()
            invariant
                i <= self.repos@.len(),
                k@ == key@,
                forall|j: int| 0 <= j < i ==> self@[j].0 != key@,
            decreases self.repos@.len() - i,
        {
            assert(self@[i as int] == self.repos@[i as int]@);
            if self.repos[i].key == k {
                proof {
                    assert(self@[i as int].0 == key@);
                    lemma_first_with_key(self@, key@);
                    match first_with_key(self@, key@) {
                        Some(j) => {
                            assert(j == i as int);
                        },
                        None => {},
                    }
                }
                return Some(i);
            }
            i += 1;
        }
        proof {
            lemma_first_with_key(self@, key@);
        }
        None
    }

    /// The stores on disk (`keys`, one per store directory) as `list` shows
    /// them: ascending by key, each with what the registry records of it.
    pub fn store_views(&self, keys: &Vec<String>) -> (r: Vec<StoreView>)
        ensures
            r@.len() == sort_dedup(str_views(keys@)).len(),
            forall|i: int| 0 <= i < r@.len() ==> {
                let k = sort_dedup(str_views(keys@))[i];
                &&& (#[trigger] r@[i]).key@ == k
                &&& opt_str(r@[i].identity) == store_record(self@, k).0
                &&& str_views(r@[i].anchors@) == store_record(self@, k).1
            },
    {
        let sorted = sorted_distinct(keys);
        let mut out: Vec<StoreView> = Vec::new();
        let mut i: usize = 0;
        while i < sorted.len()
            invariant
                i <= sorted@.len(),
                str_views(sorted@) == sort_dedup(str_views(keys@)),
                out@.len() == i,
                forall|j: int| 0 <= j < i ==> {
                    let k = sort_dedup(str_views(keys@))[j];
                    &&& (#[trigger] out@[j]).key@ == k
                    &&& opt_str(out@[j].identity) == store_record(self@, k).0
                    &&& str_views(out@[j].anchors@) == store_record(self@, k).1
                },
            decreases sorted@.len() - i,
        {
            let key = sorted[i].clone();
            assert(str_views(sorted@)[i as int] == sorted@[i as int]@);
            let v = match self.key_index(key.as_str()) {
                Some(j) => {
                    assert(self@[j as int] == self.repos@[j as int]@);
                    StoreView { key, identity: copy_opt(&self.repos[j].identity), anchors: copy_strings(&self.repos[j].anchors) }
                },
                None => {
                    let v = StoreView { key, identity: None, anchors: Vec::new() };
                    assert(str_views(v.anchors@) =~= Seq::<Seq<char>>::empty());
                    v
                },
            };
            out.push(v);
            i += 1;
        }
        out
    }
}


/// The scp-style form of a remote: `git@<host>:<path>.git`.
pub open spec fn scp_url(host: Seq<char>, path: Seq<char>) -> Seq<char> {
    seq!['g', 'i', 't', '@'] + host + seq![':'] + path + seq!['.', 'g', 'i', 't']
}

/// The https form of a remote: `https://<host>/<path>`.
pub open spec fn https_url(host: Seq<char>, path: Seq<char>) -> Seq<char> {
    seq!['h', 't', 't', 'p', 's', ':', '/', '/'] + host + seq!['/'] + path
}

/// What a well-formed remote's two forms have in common.
pub open spec fn plain_remote(host: Seq<char>, path: Seq<char>) -> bool {
    &&& host.len() > 0
    &&& forall|i: int| 0 <= i < host.len() ==> host[i] != '@' && host[i] != ':' && host[i] != '/'
    &&& path.len() > 0
    &&& path.last() != '/'
    &&& !is_space(path.last())
    &&& !ends_with(path, seq!['.', 'g', 'i', 't'])
}

proof fn lemma_scheme_literals()
    ensures
        "ssh://"@ == seq!['s', 's', 'h', ':', '/', '/'],
        "git+ssh://"@ == seq!['g', 'i', 't', '+', 's', 's', 'h', ':', '/', '/'],
        "https://"@ == seq!['h', 't', 't', 'p', 's', ':', '/', '/'],
        "http://"@ == seq!['h', 't', 't', 'p', ':', '/', '/'],
        "git://"@ == seq!['g', 'i', 't', ':', '/', '/'],
        ".git"@ == seq!['.', 'g', 'i', 't'],
{
    reveal_strlit("ssh://");
    reveal_strlit("git+ssh://");
    reveal_strlit("https://");
    reveal_strlit("http://");
    reveal_strlit("git://");
    reveal_strlit(".git");
}

/// The final step of normalizing `host/path`: the host lowercased.
proof fn lemma_host_path_tail(host: Seq<char>, path: Seq<char>)
    requires
        plain_remote(host, path),
    ensures
        ({
            let s = host + seq!['/'] + path;
            let slash = char_index_from(s, '/', 0);
            &&& slash == host.len()
            &&& s.take(slash) == host
            &&& s.skip(slash + 1) == path
        }),
{
    let s = host + seq!['/'] + path;
    lemma_char_index_concat(host, seq!['/'] + path, '/', 0);
    assert(s =~= host + (seq!['/'] + path));
    assert(s.take(host.len() as int) =~= host);
    assert(s.skip(host.len() + 1int) =~= path);
}

/// `host/path` never ends in `.git` when the path does not.
proof fn lemma_no_git_suffix(host: Seq<char>, path: Seq<char>)
    requires
        plain_remote(host, path),
    ensures
        !ends_with(host + seq!['/'] + path, seq!['.', 'g', 'i', 't']),
{
    let u = host + seq!['/'] + path;
    let g = seq!['.', 'g', 'i', 't'];
    if u.len() >= 4 && u.skip(u.len() - 4) == g {
        if path.len() >= 4 {
            assert(path.skip(path.len() - 4) =~= u.skip(u.len() - 4));
        } else {
            let k = 3 - path.len();
            assert(u.skip(u.len() - 4)[k] == u[host.len() as int]);
            assert(u[host.len() as int] == '/');
        }
    }
}

/// The ssh form of a remote: `ssh://git@<host>/<path>.git`.
pub open spec fn ssh_url(host: Seq<char>, path: Seq<char>) -> Seq<char> {
    seq!['s', 's', 'h', ':', '/', '/', 'g', 'i', 't', '@'] + host + seq!['/'] + path + seq!['.', 'g', 'i', 't']
}

/// A remote whose core is `host/path` normalizes to the lowercased host, then
/// the path.
proof fn lemma_core_identity(url: Seq<char>, host: Seq<char>, path: Seq<char>)
    requires
        plain_remote(host, path),
        url_core(url) == host + seq!['/'] + path,
    ensures
        normalized_url(url) == unicode_lowercase(host) + seq!['/'] + path,
{
    lemma_host_path_tail(host, path);
}

/// `host/path.git` loses its suffix and nothing else.
proof fn lemma_git_tail(host: Seq<char>, path: Seq<char>)
    requires
        plain_remote(host, path),
    ensures
        strip_git_suffix(host + seq!['/'] + path + seq!['.', 'g', 'i', 't']) == host + seq!['/'] + path,
{
    lemma_scheme_literals();
    lemma_no_git_suffix(host, path);
    let hp = host + seq!['/'] + path;
    let t2 = hp + seq!['.', 'g', 'i', 't'];
    assert(trim_end_char(t2, '/') == t2);
    assert(ends_with(t2, ".git"@)) by {
        assert(t2.skip(t2.len() - 4) =~= seq!['.', 'g', 'i', 't']);
    }
    assert(t2.take(t2.len() - 4) =~= hp);
    assert(hp.last() == path.last());
    assert(trim_end_char(hp, '/') == hp);
}

/// In `host/...`, the first `/` comes before any `:` and any `@`.
proof fn lemma_host_first(host: Seq<char>, rest: Seq<char>)
    requires
        forall|i: int| 0 <= i < host.len() ==> host[i] != '@' && host[i] != ':' && host[i] != '/',
        rest.len() > 0,
        rest[0] == '/',
    ensures
        char_index_from(host + rest, '/', 0) == host.len(),
        char_index_from(host + rest, ':', 0) > host.len(),
        char_index_from(host + rest, '@', 0) > host.len(),
{
    lemma_char_index_concat(host, rest, '/', 0);
    lemma_char_index_concat(host, rest, ':', 0);
    lemma_char_index_concat(host, rest, '@', 0);
    lemma_char_index_from(rest, ':', 0);
    lemma_char_index_from(rest, '@', 0);
}

proof fn lemma_https_core(host: Seq<char>, path: Seq<char>)
    requires
        plain_remote(host, path),
    ensures
        url_core(https_url(host, path)) == host + seq!['/'] + path,
{
    lemma_scheme_literals();
    lemma_no_git_suffix(host, path);
    let hp = host + seq!['/'] + path;
    let s2 = https_url(host, path);
    assert(s2[0] == 'h');
    assert(s2.last() == path.last());
    lemma_trim_fixed(s2);
    assert(s2.take(8) =~= "https://"@);
    assert(!starts_with(s2, "ssh://"@)) by {
        assert(s2.take(6)[0] != "ssh://"@[0]);
    }
    assert(!starts_with(s2, "git+ssh://"@)) by {
        if s2.len() >= 10 {
            assert(s2.take(10)[0] != "git+ssh://"@[0]);
        }
    }
    assert(s2.skip(8) =~= hp);
    assert(strip_scheme(s2) == hp);
    assert(hp =~= host + (seq!['/'] + path));
    lemma_host_first(host, seq!['/'] + path);
    assert(strip_user(hp) == hp);
    assert(colon_to_slash(hp) == hp);
    assert(hp.last() == path.last());
    assert(trim_end_char(hp, '/') == hp);
    assert(strip_git_suffix(hp) == hp);
}

proof fn lemma_scp_core(host: Seq<char>, path: Seq<char>)
    requires
        plain_remote(host, path),
    ensures
        url_core(scp_url(host, path)) == host + seq!['/'] + path,
{
    lemma_scheme_literals();
    let hp = host + seq!['/'] + path;
    let s1 = scp_url(host, path);
    assert(s1[0] == 'g');
    assert(s1.last() == 't');
    lemma_trim_fixed(s1);
    assert(s1[3] == '@');
    assert(!starts_with(s1, "ssh://"@)) by {
        assert(s1.take(6)[0] != "ssh://"@[0]);
    }
    assert(!starts_with(s1, "git+ssh://"@)) by {
        if s1.len() >= 10 {
            assert(s1.take(10)[3] != "git+ssh://"@[3]);
        }
    }
    assert(!starts_with(s1, "https://"@)) by {
        assert(s1.take(8)[0] != "https://"@[0]);
    }
    assert(!starts_with(s1, "http://"@)) by {
        assert(s1.take(7)[0] != "http://"@[0]);
    }
    assert(!starts_with(s1, "git://"@)) by {
        assert(s1.take(6)[3] != "git://"@[3]);
    }
    assert(strip_scheme(s1) == s1);
    lemma_char_index_from(s1, '@', 0);
    lemma_char_index_from(s1, '/', 0);
    let at = char_index_from(s1, '@', 0);
    if at < 3 {
        assert(s1[at] == seq!['g', 'i', 't', '@'][at]);
    }
    assert(at == 3);
    let sl = char_index_from(s1, '/', 0);
    if sl <= 3 {
        assert(s1[sl] == seq!['g', 'i', 't', '@'][sl]);
    }
    let t1 = host + seq![':'] + path + seq!['.', 'g', 'i', 't'];
    assert(s1.skip(4) =~= t1);
    assert(strip_user(s1) == t1);
    lemma_char_index_concat(host, seq![':'] + path + seq!['.', 'g', 'i', 't'], ':', 0);
    assert(t1 =~= host + (seq![':'] + path + seq!['.', 'g', 'i', 't']));
    lemma_char_index_concat(host, seq![':'] + path + seq!['.', 'g', 'i', 't'], '/', 0);
    lemma_char_index_from(seq![':'] + path + seq!['.', 'g', 'i', 't'], '/', 0);
    let t2 = hp + seq!['.', 'g', 'i', 't'];
    assert(t1.update(host.len() as int, '/') =~= t2);
    assert(colon_to_slash(t1) == t2);
    lemma_git_tail(host, path);
}

proof fn lemma_ssh_core(host: Seq<char>, path: Seq<char>)
    requires
        plain_remote(host, path),
    ensures
        url_core(ssh_url(host, path)) == host + seq!['/'] + path,
{
    lemma_scheme_literals();
    let hp = host + seq!['/'] + path;
    let s3 = ssh_url(host, path);
    assert(s3[0] == 's');
    assert(s3.last() == 't');
    lemma_trim_fixed(s3);
    assert(s3.take(6) =~= "ssh://"@);
    let t = seq!['g', 'i', 't', '@'] + host + seq!['/'] + path + seq!['.', 'g', 'i', 't'];
    assert(s3.skip(6) =~= t);
    assert(strip_scheme(s3) == t);
    lemma_char_index_from(t, '@', 0);
    let t2 = hp + seq!['.', 'g', 'i', 't'];
    let rest = seq!['/'] + path + seq!['.', 'g', 'i', 't'];
    let gh = seq!['g', 'i', 't', '@'] + host;
    assert(t =~= gh + rest);
    assert(t[3] == '@');
    let at = char_index_from(t, '@', 0);
    if at < 3 {
        assert(t[at] == seq!['g', 'i', 't', '@'][at]);
    }
    assert(at == 3);
    lemma_char_index_concat(gh, rest, '/', 0);
    assert forall|i: int| 0 <= i < gh.len() implies gh[i] != '/' by {
        if i >= 4 {
            assert(gh[i] == host[i - 4]);
        }
    }
    assert(char_index_from(t, '/', 0) == gh.len());
    assert(t.skip(4) =~= t2);
    assert(strip_user(t) == t2);
    assert(t2 =~= host + rest);
    lemma_host_first(host, rest);
    assert(colon_to_slash(t2) == t2);
    lemma_git_tail(host, path);
}

/// The scp-style, https and ssh forms of a remote normalize to one identity:
/// the host lowercased, then the path.
pub proof fn lemma_remote_forms_same_identity(host: Seq<char>, path: Seq<char>)
    requires
        plain_remote(host, path),
    ensures
        normalized_url(scp_url(host, path)) == normalized_url(https_url(host, path)),
        normalized_url(ssh_url(host, path)) == normalized_url(https_url(host, path)),
        normalized_url(https_url(host, path)) == unicode_lowercase(host) + seq!['/'] + path,
{
    lemma_https_core(host, path);
    lemma_scp_core(host, path);
    lemma_ssh_core(host, path);
    lemma_core_identity(https_url(host, path), host, path);
    lemma_core_identity(scp_url(host, path), host, path);
    lemma_core_identity(ssh_url(host, path), host, path);
}

} // verus!
