//! Workspaces: one knowledge base, or several side by side.
//!
//! A working machine is usually a folder of clones, each its own repo with its
//! own KB. From the parent folder a read command spans all of them; commands
//! that change a KB insist on exactly one. Members are named by their path
//! below the workspace root, made unique, and a document in another repo is
//! addressed as `<name>:<id>`.
//!
//! Finding the members on disk is the caller's; naming them, choosing the one
//! a command works on, and resolving document references is decided here.

use vstd::prelude::*;
use crate::config::{basename, basename_spec, file_name, file_name_exec, Config};
use crate::parse::contains_str;
use crate::text::{
    lemma_decimal_injective, lemma_lex_irrefl, lemma_lex_total, lemma_lex_trans, lex_lt,
    lex_lt_exec, starts_with, trim_end_char, trim_end_char_bound, char_index_exec, char_index_from,
    chars_of, decimal, join, join_exec, lemma_char_index_from, push_str, seq_eq, slice_of,
    str_views, string_of, usize_to_string,
};

verus! {

/// One KB in scope: the checkout it belongs to, its configuration, and the
/// name it is labelled by and addressed with.
pub struct Member {
    pub name: String,
    pub repo: String,
    pub config: Config,
}

/// The KBs a command operates on.
pub struct Workspace {
    /// The folder the members were found under (the repo itself for one KB).
    pub root: String,
    pub members: Vec<Member>,
    /// Whether members span repos, which labels output by repo.
    pub spans_repos: bool,
    /// The depth the workspace was scanned at.
    pub depth: usize,
}

/// The names of a list of members.
pub open spec fn member_names(ms: Seq<Member>) -> Seq<Seq<char>> {
    ms.map_values(|m: Member| m.name@)
}

/// Why a workspace cannot serve a request.
pub enum ScopeError {
    /// A one-KB command with several (or no) KBs in scope.
    NotOne { count: usize, root: String, names: String },
    /// A `<repo>:` qualifier naming no member.
    NoRepo { prefix: String, names: String, hint: String },
    /// An unqualified id no member holds.
    NoDoc { reference: String, names: String },
    /// An unqualified id several members hold.
    Ambiguous { reference: String, count: usize, holders: String, first: String },
}

/// What a scope error says.
pub open spec fn scope_msg(e: ScopeError) -> Seq<char> {
    match e {
        ScopeError::NotOne { count, root, names } => decimal(count as nat)
            + " knowledge bases are in scope under "@ + root@ + " ("@ + names@
            + ") — this command works on one at a time; cd into a repo, or point at one with `--repo <dir>`"@,
        ScopeError::NoRepo { prefix, names, hint } => "no repo `"@ + prefix@ + "` in scope ("@ + names@
            + ")"@ + hint@,
        ScopeError::NoDoc { reference, names } => "no document with id `"@ + reference@
            + "` in any KB in scope ("@ + names@ + ")"@,
        ScopeError::Ambiguous { reference, count, holders, first } => "`"@ + reference@ + "` exists in "@
            + decimal(count as nat) + " repos ("@ + holders@ + ") — qualify it, e.g. `"@ + first@ + ":"@
            + reference@ + "`"@,
    }
}

impl ScopeError {
    pub fn message(&self) -> (r: String)
        ensures
            r@ == scope_msg(*self),
    {
        let mut out: Vec<char> = Vec::new();
        match self {
            ScopeError::NotOne { count, root, names } => {
                let n = usize_to_string(*count);
                push_str(&mut out, n.as_str());
                push_str(&mut out, " knowledge bases are in scope under ");
                push_str(&mut out, root.as_str());
                push_str(&mut out, " (");
                push_str(&mut out, names.as_str());
                push_str(&mut out, ") — this command works on one at a time; cd into a repo, or point at one with `--repo <dir>`");
            },
            ScopeError::NoRepo { prefix, names, hint } => {
                push_str(&mut out, "no repo `");
                push_str(&mut out, prefix.as_str());
                push_str(&mut out, "` in scope (");
                push_str(&mut out, names.as_str());
                push_str(&mut out, ")");
                push_str(&mut out, hint.as_str());
            },
            ScopeError::NoDoc { reference, names } => {
                push_str(&mut out, "no document with id `");
                push_str(&mut out, reference.as_str());
                push_str(&mut out, "` in any KB in scope (");
                push_str(&mut out, names.as_str());
                push_str(&mut out, ")");
            },
            ScopeError::Ambiguous { reference, count, holders, first } => {
                let n = usize_to_string(*count);
                push_str(&mut out, "`");
                push_str(&mut out, reference.as_str());
                push_str(&mut out, "` exists in ");
                push_str(&mut out, n.as_str());
                push_str(&mut out, " repos (");
                push_str(&mut out, holders.as_str());
                push_str(&mut out, ") — qualify it, e.g. `");
                push_str(&mut out, first.as_str());
                push_str(&mut out, ":");
                push_str(&mut out, reference.as_str());
                push_str(&mut out, "`");
            },
        }
        string_of(&out)
    }
}

/// The names of `ms`, comma-separated.
pub fn names_of(ms: &Vec<Member>) -> (r: String)
    ensures
        r@ == join(member_names(ms@), ", "@),
{
    let mut v: Vec<String> = Vec::new();
    let mut i: usize = 0;
    while i < ms.len()
        invariant
            i <= ms@.len(),
            str_views(v@) == member_names(ms@).take(i as int),
        decreases ms@.len() - i,
    {
        let ghost before = str_views(v@);
        v.push(ms[i].name.clone());
        proof {
            assert(str_views(v@) =~= before.push(ms@[i as int].name@));
            assert(member_names(ms@).take(i + 1) =~= member_names(ms@).take(i as int).push(ms@[i as int].name@));
        }
        i += 1;
    }
    proof {
        assert(member_names(ms@).take(ms@.len() as int) =~= member_names(ms@));
    }
    join_exec(&v, ", ")
}

/// The number of `/` characters in `s`.
pub open spec fn slash_count(s: Seq<char>) -> nat
    decreases s.len(),
{
    if s.len() == 0 {
        0
    } else {
        slash_count(s.drop_last()) + if s.last() == '/' { 1nat } else { 0nat }
    }
}

/// The hint for an unknown repo qualifier: a nested name needs a deeper scan
/// than the workspace has.
pub open spec fn depth_hint(prefix: Seq<char>, depth: nat) -> Seq<char> {
    let n = slash_count(prefix);
    if n > 0 && depth <= n {
        " — try `--depth "@ + decimal(n + 1) + "`"@
    } else {
        ""@
    }
}

/// The first index of `x` in `names`.
pub open spec fn name_index(names: Seq<Seq<char>>, x: Seq<char>) -> Option<int>
    decreases names.len(),
{
    if names.len() == 0 {
        None
    } else if names[0] == x {
        Some(0)
    } else {
        match name_index(names.drop_first(), x) {
            Some(i) => Some(i + 1),
            None => None,
        }
    }
}

/// The indices at which `h` is true, in order.
pub open spec fn true_indices(h: Seq<bool>) -> Seq<int>
    decreases h.len(),
{
    if h.len() == 0 {
        Seq::empty()
    } else if h.last() {
        true_indices(h.drop_last()).push(h.len() - 1)
    } else {
        true_indices(h.drop_last())
    }
}

/// A reference split at its first `:` into a repo qualifier and an id.
pub open spec fn split_qualifier(s: Seq<char>) -> Option<(Seq<char>, Seq<char>)> {
    let k = char_index_from(s, ':', 0);
    if k < s.len() {
        Some((s.take(k), s.skip(k + 1)))
    } else {
        None
    }
}

/// How a document reference resolves, given which members hold it as a bare
/// id (`holders`): `Ok((member, id))`, or the error message.
///
/// A known `<repo>:` qualifier names its member outright. An unknown one is an
/// error while spanning repos; otherwise the whole reference is an id. A
/// one-member workspace takes any id; else exactly one holder must have it.
pub open spec fn resolve_doc_spec(
    names: Seq<Seq<char>>,
    root_names: Seq<char>,
    spans: bool,
    depth: nat,
    reference: Seq<char>,
    holders: Seq<bool>,
) -> Result<(int, Seq<char>), Seq<char>> {
    match split_qualifier(reference) {
        Some((prefix, id)) => match name_index(names, prefix) {
            Some(i) => Ok((i, id)),
            None => if spans {
                Err("no repo `"@ + prefix + "` in scope ("@ + root_names + ")"@ + depth_hint(prefix, depth))
            } else {
                resolve_bare(names, root_names, reference, holders)
            },
        },
        None => resolve_bare(names, root_names, reference, holders),
    }
}

/// How an unqualified reference resolves: the only member of a one-member
/// workspace, else the one holder.
pub open spec fn resolve_bare(
    names: Seq<Seq<char>>,
    root_names: Seq<char>,
    reference: Seq<char>,
    holders: Seq<bool>,
) -> Result<(int, Seq<char>), Seq<char>> {
    if names.len() == 1 {
        Ok((0, reference))
    } else {
        let hs = true_indices(holders);
        if hs.len() == 1 {
            Ok((hs[0], reference))
        } else if hs.len() == 0 {
            Err("no document with id `"@ + reference + "` in any KB in scope ("@ + root_names + ")"@)
        } else {
            Err("`"@ + reference + "` exists in "@ + decimal(hs.len()) + " repos ("@
                + join(hs.map_values(|i: int| names[i]), ", "@) + ") — qualify it, e.g. `"@
                + names[hs[0]] + ":"@ + reference + "`"@)
        }
    }
}

proof fn lemma_name_index(names: Seq<Seq<char>>, x: Seq<char>)
    ensures
        match name_index(names, x) {
            Some(i) => 0 <= i < names.len() && names[i] == x && forall|j: int| 0 <= j < i ==> names[j] != x,
            None => forall|j: int| 0 <= j < names.len() ==> names[j] != x,
        },
    decreases names.len(),
{
    if names.len() > 0 {
        lemma_name_index(names.drop_first(), x);
        if names[0] != x {
            assert forall|j: int| 1 <= j < names.len() implies names[j] == names.drop_first()[j - 1] by {}
        }
    }
}

proof fn lemma_true_indices(h: Seq<bool>)
    ensures
        forall|k: int| 0 <= k < true_indices(h).len() ==> 0 <= #[trigger] true_indices(h)[k] < h.len()
            && h[true_indices(h)[k]],
    decreases h.len(),
{
    if h.len() > 0 {
        let p = h.drop_last();
        lemma_true_indices(p);
        assert forall|k: int| 0 <= k < true_indices(h).len() implies 0 <= #[trigger] true_indices(h)[k] < h.len()
            && h[true_indices(h)[k]] by {
            if k < true_indices(p).len() {
                assert(true_indices(h)[k] == true_indices(p)[k]);
                assert(h[true_indices(p)[k]] == p[true_indices(p)[k]]);
            }
        }
    }
}

/// The index of the member named `x`.
fn find_member(ms: &Vec<Member>, x: &Vec<char>) -> (r: Option<usize>)
    ensures
        match r {
            Some(i) => name_index(member_names(ms@), x@) == Some(i as int),
            None => name_index(member_names(ms@), x@) is None,
        },
{
    let mut i: usize = 0;
    while i < ms.len()
        invariant
            i <= ms@.len(),
            forall|j: int| 0 <= j < i ==> member_names(ms@)[j] != x@,
        decreases ms@.len() - i,
    {
        let n = chars_of(ms[i].name.as_str());
        if seq_eq(&n, x) {
            proof {
                lemma_name_index(member_names(ms@), x@);
                assert(member_names(ms@)[i as int] == x@);
                match name_index(member_names(ms@), x@) {
                    Some(k) => {
                        assert(k == i as int);
                    },
                    None => {},
                }
            }
            return Some(i);
        }
        i += 1;
    }
    proof {
        lemma_name_index(member_names(ms@), x@);
    }
    None
}

impl Workspace {
    /// A workspace of the one KB `config`, named after its repo.
    pub fn single(config: Config) -> (w: Workspace)
        ensures
            w.root@ == (match config.source_repo { Some(s) => s@, None => config.repo_root@ }),
            w.members@.len() == 1,
            w.members@[0].repo@ == w.root@,
            w.members@[0].name@ == basename_spec(w.root@),
            w.members@[0].config == config,
            !w.spans_repos,
            w.depth == 1,
    {
        let repo = config.repo().clone();
        let name = basename(repo.as_str());
        let root = repo.clone();
        let m = Member { name, repo, config };
        Workspace { root, members: vec![m], spans_repos: false, depth: 1 }
    }

    /// The one KB a command that changes a KB works on; an error naming the
    /// members unless there is exactly one.
    pub fn only(&self) -> (r: Result<&Config, ScopeError>)
        ensures
            self.members@.len() == 1 ==> (r matches Ok(c) && *c == self.members@[0].config),
            self.members@.len() != 1 ==> (r matches Err(e) && scope_msg(e) == decimal(self.members@.len())
                + " knowledge bases are in scope under "@ + self.root@ + " ("@
                + join(member_names(self.members@), ", "@)
                + ") — this command works on one at a time; cd into a repo, or point at one with `--repo <dir>`"@),
    {
        if self.members.len() == 1 {
            Ok(&self.members[0].config)
        } else {
            Err(ScopeError::NotOne { count: self.members.len(), root: self.root.clone(), names: self.names() })
        }
    }

    /// The flags a follow-up command needs to reach the same members.
    pub fn reach_flags(&self) -> (r: String)
        ensures
            self.depth > 1 ==> r@ == " --depth "@ + decimal(self.depth as nat),
            self.depth <= 1 ==> r@ == ""@,
    {
        if self.depth > 1 {
            let mut out: Vec<char> = Vec::new();
            push_str(&mut out, " --depth ");
            let n = usize_to_string(self.depth);
            push_str(&mut out, n.as_str());
            string_of(&out)
        } else {
            proof {
                reveal_strlit("");
            }
            String::new()
        }
    }

    /// The member names, comma-separated.
    pub fn names(&self) -> (r: String)
        ensures
            r@ == join(member_names(self.members@), ", "@),
    {
        names_of(&self.members)
    }

    /// Whether resolving `reference` looks at which members hold it: not for
    /// a known `<repo>:` qualifier, nor for an unknown one while spanning
    /// repos, nor in a one-member workspace.
    pub fn needs_holders(&self, reference: &str) -> (b: bool)
        ensures
            b == (match split_qualifier(reference@) {
                Some((p, _)) => name_index(member_names(self.members@), p) is None && !self.spans_repos,
                None => true,
            } && self.members@.len() != 1),
            !b ==> forall|h: Seq<bool>|
                #[trigger] resolve_doc_spec(member_names(self.members@), join(member_names(self.members@), ", "@),
                    self.spans_repos, self.depth as nat, reference@, h)
                == resolve_doc_spec(member_names(self.members@), join(member_names(self.members@), ", "@),
                    self.spans_repos, self.depth as nat, reference@, Seq::empty()),
    {
        if self.members.len() == 1 {
            return false;
        }
        let cs = chars_of(reference);
        let k = char_index_exec(&cs, ':', 0);
        proof {
            lemma_char_index_from(cs@, ':', 0);
        }
        if k < cs.len() {
            let prefix = slice_of(&cs, 0, k);
            proof {
                assert(prefix@ =~= reference@.take(k as int));
            }
            match find_member(&self.members, &prefix) {
                Some(_) => false,
                None => !self.spans_repos,
            }
        } else {
            true
        }
    }

    /// Resolve a document reference to the member holding it. `holders[i]`
    /// says whether member `i`'s index holds the reference as a bare id.
    pub fn resolve_doc(&self, reference: &str, holders: &Vec<bool>) -> (r: Result<(usize, String), ScopeError>)
        requires
            holders@.len() == self.members@.len(),
        ensures
            match resolve_doc_spec(member_names(self.members@), join(member_names(self.members@), ", "@),
                self.spans_repos, self.depth as nat, reference@, holders@) {
                Ok((i, id)) => r matches Ok((j, s)) && j == i && s@ == id,
                Err(m) => r matches Err(e) && scope_msg(e) == m,
            },
    {
        let ghost names = member_names(self.members@);
        let cs = chars_of(reference);
        let k = char_index_exec(&cs, ':', 0);
        proof {
            lemma_char_index_from(cs@, ':', 0);
        }
        if k < cs.len() {
            let prefix = slice_of(&cs, 0, k);
            let id = slice_of(&cs, k + 1, cs.len());
            proof {
                assert(prefix@ =~= cs@.take(k as int));
                assert(id@ =~= cs@.skip(k + 1));
            }
            match find_member(&self.members, &prefix) {
                Some(i) => {
                    return Ok((i, string_of(&id)));
                },
                None => {
                    if self.spans_repos {
                        let hint = self.hint(&prefix);
                        return Err(ScopeError::NoRepo { prefix: string_of(&prefix), names: self.names(), hint });
                    }
                },
            }
        }
        if self.members.len() == 1 {
            return Ok((0, reference.to_owned()));
        }
        let mut hs: Vec<usize> = Vec::new();
        let mut i: usize = 0;
        while i < holders.len()
            invariant
                i <= holders@.len(),
                hs@.map_values(|x: usize| x as int) == true_indices(holders@.take(i as int)),
            decreases holders@.len() - i,
        {
            let ghost t = holders@.take(i + 1);
            proof {
                assert(t.drop_last() =~= holders@.take(i as int));
            }
            if holders[i] {
                hs.push(i);
            }
            proof {
                assert(hs@.map_values(|x: usize| x as int) =~= true_indices(t));
            }
            i += 1;
        }
        proof {
            assert(holders@.take(holders@.len() as int) =~= holders@);
            lemma_true_indices(holders@);
        }
        let ghost ti = true_indices(holders@);
        assert(hs@.len() == ti.len());
        if hs.len() == 1 {
            assert(hs@[0] as int == ti[0]);
            return Ok((hs[0], reference.to_owned()));
        }
        if hs.len() == 0 {
            return Err(ScopeError::NoDoc { reference: reference.to_owned(), names: self.names() });
        }
        let mut hn: Vec<String> = Vec::new();
        let mut j: usize = 0;
        while j < hs.len()
            invariant
                j <= hs@.len(),
                hs@.map_values(|x: usize| x as int) == ti,
                ti == true_indices(holders@),
                holders@.len() == self.members@.len(),
                forall|q: int| 0 <= q < ti.len() ==> 0 <= #[trigger] ti[q] < holders@.len(),
                str_views(hn@) == ti.map_values(|x: int| member_names(self.members@)[x]).take(j as int),
            decreases hs@.len() - j,
        {
            assert(hs@[j as int] as int == ti[j as int]);
            let idx = hs[j];
            let ghost before = str_views(hn@);
            let c = self.members[idx].name.clone();
            hn.push(c);
            proof {
                assert(str_views(hn@) =~= before.push(member_names(self.members@)[ti[j as int]]));
                assert(str_views(hn@) =~= ti.map_values(|x: int| member_names(self.members@)[x]).take(j + 1));
            }
            j += 1;
        }
        proof {
            assert(ti.map_values(|x: int| member_names(self.members@)[x]).take(hs@.len() as int)
                =~= ti.map_values(|x: int| member_names(self.members@)[x]));
            assert(hs@[0] as int == ti[0]);
        }
        let holders_s = join_exec(&hn, ", ");
        let first = self.members[hs[0]].name.clone();
        Err(ScopeError::Ambiguous { reference: reference.to_owned(), count: hs.len(), holders: holders_s, first })
    }

    /// The depth hint for an unknown qualifier.
    fn hint(&self, prefix: &Vec<char>) -> (r: String)
        requires
            prefix@.len() < usize::MAX,
        ensures
            r@ == depth_hint(prefix@, self.depth as nat),
    {
        let mut n: usize = 0;
        let mut i: usize = 0;
        while i < prefix.len()
            invariant
                i <= prefix@.len(),
                n == slash_count(prefix@.take(i as int)),
                n <= i,
            decreases prefix@.len() - i,
        {
            proof {
                assert(prefix@.take(i + 1).drop_last() =~= prefix@.take(i as int));
            }
            if prefix[i] == '/' {
                n += 1;
            }
            i += 1;
        }
        proof {
            assert(prefix@.take(prefix@.len() as int) =~= prefix@);
        }
        if n > 0 && self.depth <= n {
            let mut out: Vec<char> = Vec::new();
            push_str(&mut out, " — try `--depth ");
            let d = usize_to_string(n + 1);
            push_str(&mut out, d.as_str());
            push_str(&mut out, "`");
            string_of(&out)
        } else {
            proof {
                reveal_strlit("");
            }
            String::new()
        }
    }
}


// ---------------------------------------------------------------------------
// Collecting members
// ---------------------------------------------------------------------------

/// Accumulates members while keeping names unique and stores listed once.
pub struct Collector {
    /// The workspace root names are taken relative to.
    pub root: String,
    pub members: Vec<Member>,
    /// The state root of each member, in member order.
    pub stores: Vec<String>,
    /// The name of each member, in member order.
    pub names: Vec<String>,
}

/// `dir`'s path below `root` (`None` when it is not strictly below it).
/// Paths are taken as written, without `.` or repeated separators.
pub open spec fn rel_under(root: Seq<char>, dir: Seq<char>) -> Option<Seq<char>> {
    let pre = if root.len() > 0 && root.last() == '/' { root } else { root + "/"@ };
    if starts_with(dir, pre) && dir.len() > pre.len() {
        Some(trim_end_char(dir.skip(pre.len() as int), '/'))
    } else {
        None
    }
}

/// A member's name before de-duplication: its path below the root (`api`,
/// `org-a/api`), or its basename when it is not below the root.
pub open spec fn base_name(root: Seq<char>, dir: Seq<char>) -> Seq<char> {
    match rel_under(root, dir) {
        Some(r) => if r.len() > 0 { r } else { basename_spec(dir) },
        None => basename_spec(dir),
    }
}

/// The `n`th alternative to a taken name.
pub open spec fn candidate(base: Seq<char>, n: nat) -> Seq<char> {
    base + "-"@ + decimal(n)
}

/// `name` is what de-duplicating `base` against `taken` gives: `base` itself
/// when free, else `base-n` for the least `n >= 2` that is free.
pub open spec fn deduplicated(taken: Seq<Seq<char>>, base: Seq<char>, name: Seq<char>) -> bool {
    &&& !taken.contains(name)
    &&& (name == base || (taken.contains(base) && exists|k: nat| k >= 2 && name == candidate(base, k)
        && forall|j: nat| 2 <= j < k ==> taken.contains(#[trigger] candidate(base, j))))
}

impl Collector {
    /// The collector's invariant: one name and one store per member, no name
    /// and no store twice.
    pub open spec fn wf(&self) -> bool {
        &&& self.names@.len() == self.members@.len()
        &&& self.stores@.len() == self.members@.len()
        &&& self.members@.len() + 3 < usize::MAX
        &&& forall|i: int| 0 <= i < self.members@.len() ==> #[trigger] self.members@[i].name@ == self.names@[i]@
        &&& forall|i: int| 0 <= i < self.members@.len()
            ==> #[trigger] self.stores@[i]@ == self.members@[i].config.repo_root@
        &&& str_views(self.names@).no_duplicates()
        &&& str_views(self.stores@).no_duplicates()
    }

    /// An empty collector for the workspace root `root`.
    pub fn new(root: &str) -> (c: Collector)
        ensures
            c.wf(),
            c.root@ == root@,
            c.members@.len() == 0,
    {
        let c = Collector { root: root.to_owned(), members: Vec::new(), stores: Vec::new(), names: Vec::new() };
        assert(str_views(c.names@) =~= Seq::<Seq<char>>::empty());
        assert(str_views(c.stores@) =~= Seq::<Seq<char>>::empty());
        c
    }

    fn base_name_exec(&self, dir: &str) -> (r: String)
        ensures
            r@ == base_name(self.root@, dir@),
    {
        let rc = chars_of(self.root.as_str());
        let mut pre = rc.clone();
        if !(rc.len() > 0 && rc[rc.len() - 1] == '/') {
            pre.push('/');
        }
        proof {
            reveal_strlit("/");
            assert(pre@ == (if self.root@.len() > 0 && self.root@.last() == '/' { self.root@ } else { self.root@ + "/"@ }));
        }
        let dc = chars_of(dir);
        if crate::text::starts_with_exec(&dc, &pre) && dc.len() > pre.len() {
            let e = trim_end_char_bound(&dc, pre.len(), dc.len(), '/');
            proof {
                assert(dc@.subrange(pre@.len() as int, dc@.len() as int) =~= dc@.skip(pre@.len() as int));
            }
            if e > pre.len() {
                let r = slice_of(&dc, pre.len(), e);
                return string_of(&r);
            }
        }
        basename(dir)
    }

    /// The name `base-n`.
    fn candidate_exec(base: &String, n: usize) -> (r: String)
        ensures
            r@ == candidate(base@, n as nat),
    {
        let mut out: Vec<char> = Vec::new();
        push_str(&mut out, base.as_str());
        push_str(&mut out, "-");
        let d = usize_to_string(n);
        push_str(&mut out, d.as_str());
        string_of(&out)
    }

    /// Pick a free name for a member at `dir` and record it.
    fn unique_name(&mut self, dir: &str) -> (r: String)
        requires
            str_views(old(self).names@).no_duplicates(),
            old(self).names@.len() + 3 < usize::MAX,
        ensures
            deduplicated(str_views(old(self).names@), base_name(old(self).root@, dir@), r@),
            str_views(final(self).names@) == str_views(old(self).names@).push(r@),
            str_views(final(self).names@).no_duplicates(),
            final(self).root == old(self).root,
            final(self).members == old(self).members,
            final(self).stores == old(self).stores,
    {
        let base = self.base_name_exec(dir);
        let ghost taken = str_views(self.names@);
        let mut name = base.clone();
        if contains_str(&self.names, &name) {
            let mut n: usize = 2;
            name = Self::candidate_exec(&base, n);
            while contains_str(&self.names, &name)
                invariant
                    taken == str_views(self.names@),
                    taken.len() + 3 < usize::MAX,
                    2 <= n <= taken.len() + 2,
                    name@ == candidate(base@, n as nat),
                    taken.contains(base@),
                    forall|j: nat| 2 <= j < n ==> taken.contains(#[trigger] candidate(base@, j)),
                decreases taken.len() + 2 - n,
            {
                proof {
                    self.lemma_pigeonhole(base@, n as nat);
                }
                n = n + 1;
                name = Self::candidate_exec(&base, n);
            }
            proof {
                assert(exists|k: nat| k >= 2 && name@ == candidate(base@, k)
                    && forall|j: nat| 2 <= j < k ==> taken.contains(#[trigger] candidate(base@, j))) by {
                    assert(n as nat >= 2);
                }
            }
        }
        let ghost before = str_views(self.names@);
        self.names.push(name.clone());
        proof {
            assert(str_views(self.names@) =~= before.push(name@));
            assert forall|i: int, j: int| 0 <= i < str_views(self.names@).len() && 0 <= j < str_views(self.names@).len()
                && i != j implies str_views(self.names@)[i] != str_views(self.names@)[j] by {
                if i < before.len() && j < before.len() {
                } else if i == before.len() {
                    assert(before[j] == str_views(self.names@)[j]);
                    assert(before.contains(before[j]));
                } else {
                    assert(before[i] == str_views(self.names@)[i]);
                    assert(before.contains(before[i]));
                }
            }
        }
        name
    }

    /// While searching for a free name, every candidate up to `n` is taken,
    /// so there are no more than the taken names.
    proof fn lemma_pigeonhole(&self, base: Seq<char>, n: nat)
        requires
            n >= 2,
            forall|j: nat| 2 <= j <= n ==> str_views(self.names@).contains(#[trigger] candidate(base, j)),
        ensures
            n <= self.names@.len() + 1,
    {
        reveal_strlit("-");
        let taken = str_views(self.names@);
        let cs = Seq::new((n - 1) as nat, |i: int| candidate(base, (i + 2) as nat));
        assert forall|i: int, j: int| 0 <= i < cs.len() && 0 <= j < cs.len() && i != j
            implies cs[i] != cs[j] by {
            if cs[i] == cs[j] {
                let a = (i + 2) as nat;
                let b = (j + 2) as nat;
                assert(candidate(base, a).skip(base.len() + 1int) =~= decimal(a));
                assert(candidate(base, b).skip(base.len() + 1int) =~= decimal(b));
                lemma_decimal_injective(a, b);
            }
        }
        cs.unique_seq_to_set();
        assert(cs.to_set().subset_of(taken.to_set())) by {
            assert forall|x: Seq<char>| cs.to_set().contains(x) implies taken.to_set().contains(x) by {
                let i = choose|i: int| 0 <= i < cs.len() && cs[i] == x;
                assert(taken.contains(candidate(base, (i + 2) as nat)));
            }
        }
        vstd::set_lib::lemma_len_subset(cs.to_set(), taken.to_set());
        taken.lemma_cardinality_of_set();
    }

    /// Add the KB at `dir` with `config`. A store already listed (a worktree or
    /// a linked clone of a member) is not listed twice. Returns whether `dir`
    /// carries a KB, which it does.
    pub fn add_config(&mut self, dir: &str, config: Config) -> (b: bool)
        requires
            old(self).wf(),
            old(self).members@.len() + 4 < usize::MAX,
        ensures
            b,
            final(self).wf(),
            final(self).root == old(self).root,
            str_views(old(self).stores@).contains(config.repo_root@) ==> *final(self) == *old(self),
            !str_views(old(self).stores@).contains(config.repo_root@) ==> {
                &&& final(self).members@.len() == old(self).members@.len() + 1
                &&& final(self).members@.drop_last() == old(self).members@
                &&& final(self).members@.last().repo@ == dir@
                &&& final(self).members@.last().config == config
                &&& deduplicated(str_views(old(self).names@), base_name(old(self).root@, dir@),
                    final(self).members@.last().name@)
            },
    {
        if contains_str(&self.stores, &config.repo_root) {
            return true;
        }
        let ghost old_members = self.members@;
        let ghost old_stores = str_views(self.stores@);
        let name = self.unique_name(dir);
        let store = config.repo_root.clone();
        let ghost nm = name@;
        let m = Member { name, repo: dir.to_owned(), config };
        self.members.push(m);
        self.stores.push(store);
        proof {
            assert(self.members@.last().name@ == nm);
            assert(str_views(self.names@).last() == nm);
            assert(self.names@.len() == self.members@.len());
            assert(str_views(self.stores@) =~= old_stores.push(config.repo_root@));
            assert(self.members@.drop_last() =~= old_members);
            assert forall|i: int, j: int| 0 <= i < str_views(self.stores@).len() && 0 <= j < str_views(self.stores@).len()
                && i != j implies str_views(self.stores@)[i] != str_views(self.stores@)[j] by {
                if i < old_stores.len() && j < old_stores.len() {
                } else if i == old_stores.len() {
                    assert(old_stores.contains(old_stores[j]));
                } else {
                    assert(old_stores.contains(old_stores[i]));
                }
            }
            assert forall|i: int| 0 <= i < self.members@.len() implies #[trigger] self.members@[i].name@
                == self.names@[i]@ by {
                if i < old_members.len() {
                    assert(self.members@[i] == old_members[i]);
                    assert(str_views(self.names@)[i] == self.names@[i]@);
                } else {
                    assert(str_views(self.names@)[i] == self.names@[i]@);
                }
            }
            assert forall|i: int| 0 <= i < self.members@.len() implies #[trigger] self.stores@[i]@
                == self.members@[i].config.repo_root@ by {
                assert(str_views(self.stores@)[i] == self.stores@[i]@);
                if i < old_members.len() {
                    assert(self.members@[i] == old_members[i]);
                    assert(old_stores[i] == old(self).stores@[i]@);
                }
            }
        }
        true
    }

    /// The members, sorted by name. Names are distinct, so the order is
    /// strict; every member appears once.
    pub fn finish(self) -> (r: Vec<Member>)
        requires
            self.wf(),
        ensures
            r@.len() == self.members@.len(),
            forall|x: Member| r@.contains(x) <==> self.members@.contains(x),
            forall|i: int, j: int| 0 <= i < j < r@.len() ==> lex_lt(#[trigger] r@[i].name@, #[trigger] r@[j].name@),
            forall|i: int, j: int| 0 <= i < j < r@.len() ==> #[trigger] r@[i].name@ != #[trigger] r@[j].name@,
            forall|i: int, j: int| 0 <= i < j < r@.len()
                ==> #[trigger] r@[i].config.repo_root@ != #[trigger] r@[j].config.repo_root@,
    {
        let ghost orig = self.members@;
        let ghost names = str_views(self.names@);
        let ghost stores = str_views(self.stores@);
        proof {
            assert forall|i: int, j: int| 0 <= i < orig.len() && 0 <= j < orig.len() && i != j
                implies orig[i].name@ != orig[j].name@ && orig[i].config.repo_root@ != orig[j].config.repo_root@ by {
                assert(names[i] == orig[i].name@);
                assert(names[j] == orig[j].name@);
                assert(stores[i] == self.stores@[i]@);
                assert(stores[j] == self.stores@[j]@);
            }
        }
        let mut ms = self.members;
        let mut out: Vec<Member> = Vec::new();
        while ms.len() > 0
            invariant
                ms@ == orig.take(ms@.len() as int),
                ms@.len() <= orig.len(),
                out@.len() + ms@.len() == orig.len(),
                forall|x: Member| out@.contains(x) <==> orig.skip(ms@.len() as int).contains(x),
                forall|i: int, j: int| 0 <= i < j < out@.len() ==> lex_lt(#[trigger] out@[i].name@, #[trigger] out@[j].name@),
                forall|i: int, j: int| 0 <= i < orig.len() && 0 <= j < orig.len() && i != j
                    ==> orig[i].name@ != orig[j].name@ && orig[i].config.repo_root@ != orig[j].config.repo_root@,
            decreases ms@.len(),
        {
            let k = ms.len();
            let x = ms.pop().unwrap();
            proof {
                assert(x == orig[k - 1]);
                assert(ms@ =~= orig.take(k - 1));
                assert forall|q: int| 0 <= q < out@.len() implies out@[q].name@ != x.name@ by {
                    assert(out@.contains(out@[q]));
                    let j = choose|j: int| 0 <= j < orig.skip(k as int).len() && orig.skip(k as int)[j] == out@[q];
                    assert(orig[j + k] == out@[q]);
                }
            }
            let ghost t = orig.skip(k - 1);
            let ghost u = orig.skip(k as int);
            Self::insert_by_name(&mut out, x);
            proof {
                assert(ms@.len() == k - 1);
                assert forall|y: Member| out@.contains(y) <==> t.contains(y) by {
                    if t.contains(y) {
                        let i = choose|i: int| 0 <= i < t.len() && t[i] == y;
                        if i > 0 {
                            assert(u[i - 1] == y);
                            assert(u.contains(y));
                        }
                    }
                    if u.contains(y) {
                        let i = choose|i: int| 0 <= i < u.len() && u[i] == y;
                        assert(t[i + 1] == y);
                    }
                    if y == orig[k - 1] {
                        assert(t[0] == y);
                    }
                }
            }
        }
        proof {
            assert(orig.skip(0) =~= orig);
            assert forall|i: int, j: int| 0 <= i < j < out@.len() implies #[trigger] out@[i].name@ != #[trigger] out@[j].name@ by {
                lemma_lex_irrefl(out@[i].name@);
            }
            assert forall|i: int, j: int| 0 <= i < j < out@.len()
                implies #[trigger] out@[i].config.repo_root@ != #[trigger] out@[j].config.repo_root@ by {
                assert(out@.contains(out@[i]));
                assert(out@.contains(out@[j]));
                let a = choose|a: int| 0 <= a < orig.len() && orig[a] == out@[i];
                let b = choose|b: int| 0 <= b < orig.len() && orig[b] == out@[j];
                lemma_lex_irrefl(out@[i].name@);
            }
        }
        out
    }

    /// Insert `x` into `v`, kept in strictly ascending name order, before the
    /// first name greater than its own.
    fn insert_by_name(v: &mut Vec<Member>, x: Member)
        requires
            forall|i: int, j: int| 0 <= i < j < old(v)@.len() ==> lex_lt(#[trigger] old(v)@[i].name@, #[trigger] old(v)@[j].name@),
            forall|q: int| 0 <= q < old(v)@.len() ==> old(v)@[q].name@ != x.name@,
        ensures
            final(v)@.len() == old(v)@.len() + 1,
            forall|y: Member| final(v)@.contains(y) <==> (old(v)@.contains(y) || y == x),
            forall|i: int, j: int| 0 <= i < j < final(v)@.len() ==> lex_lt(#[trigger] final(v)@[i].name@, #[trigger] final(v)@[j].name@),
    {
        let xc = chars_of(x.name.as_str());
        let mut p: usize = 0;
        while p < v.len() && !lex_lt_exec(&xc, &chars_of(v[p].name.as_str()))
            invariant
                p <= v@.len(),
                v@ == old(v)@,
                xc@ == x.name@,
                forall|q: int| 0 <= q < p ==> !lex_lt(x.name@, #[trigger] v@[q].name@),
            decreases v@.len() - p,
        {
            p += 1;
        }
        let ghost s = v@;
        v.insert(p, x);
        proof {
            assert(v@ =~= s.insert(p as int, x));
            assert forall|q: int| 0 <= q < p implies lex_lt(#[trigger] s[q].name@, x.name@) by {
                lemma_lex_total(s[q].name@, x.name@);
            }
            assert forall|i: int, j: int| 0 <= i < j < v@.len() implies lex_lt(#[trigger] v@[i].name@, #[trigger] v@[j].name@) by {
                if j < p {
                    assert(v@[i] == s[i] && v@[j] == s[j]);
                } else if j == p {
                    assert(v@[i] == s[i]);
                } else if i == p {
                    assert(v@[j] == s[j - 1]);
                    if j - 1 > p {
                        assert(lex_lt(s[p as int].name@, s[j - 1].name@));
                        lemma_lex_trans(x.name@, s[p as int].name@, s[j - 1].name@);
                    }
                } else if i < p {
                    assert(v@[i] == s[i] && v@[j] == s[j - 1]);
                    if i < j - 1 {
                    } else {
                    }
                } else {
                    assert(v@[i] == s[i - 1] && v@[j] == s[j - 1]);
                }
            }
            assert forall|y: Member| v@.contains(y) <==> (s.contains(y) || y == x) by {
                if s.contains(y) {
                    let q = choose|q: int| 0 <= q < s.len() && s[q] == y;
                    if q < p {
                        assert(v@[q] == y);
                    } else {
                        assert(v@[q + 1] == y);
                    }
                    assert(v@.contains(y));
                }
                if y == x {
                    assert(v@[p as int] == y);
                    assert(v@.contains(y));
                }
                if v@.contains(y) {
                    let q = choose|q: int| 0 <= q < v@.len() && v@[q] == y;
                    if q < p {
                        assert(s[q] == y);
                        assert(s.contains(y));
                    } else if q > p {
                        assert(s[q - 1] == y);
                        assert(s.contains(y));
                    } else {
                        assert(y == x);
                    }
                }
            }
        }
    }
}


/// What a workspace's members satisfy once collected: sorted by name, no name
/// and no store twice.
pub open spec fn well_named(ms: Seq<Member>) -> bool {
    &&& forall|i: int, j: int| 0 <= i < j < ms.len() ==> lex_lt(#[trigger] ms[i].name@, #[trigger] ms[j].name@)
    &&& forall|i: int, j: int| 0 <= i < j < ms.len() ==> #[trigger] ms[i].name@ != #[trigger] ms[j].name@
    &&& forall|i: int, j: int| 0 <= i < j < ms.len()
        ==> #[trigger] ms[i].config.repo_root@ != #[trigger] ms[j].config.repo_root@
}

/// The repo a KB belongs to: the bound repo of a local store, else its own root.
pub open spec fn repo_of(c: Config) -> Seq<char> {
    match c.source_repo {
        Some(s) => s@,
        None => c.repo_root@,
    }
}

/// What `collect` is handed: the KBs found (directory and configuration), then
/// our own at its repo.
pub open spec fn collect_inputs(found: Seq<(String, Config)>, own: Option<Config>) -> Seq<(Seq<char>, Config)> {
    found.map_values(|e: (String, Config)| (e.0@, e.1)) + match own {
        Some(c) => seq![(repo_of(c), c)],
        None => Seq::empty(),
    }
}

/// `m` is one of the inputs: its directory and its configuration.
pub open spec fn drawn_from(m: Member, ins: Seq<(Seq<char>, Config)>) -> bool {
    exists|k: int| 0 <= k < ins.len() && ins[k].0 == m.repo@ && ins[k].1 == m.config
}

/// Some member keeps the store `store`.
pub open spec fn represented(ms: Seq<Member>, store: Seq<char>) -> bool {
    exists|i: int| 0 <= i < ms.len() && ms[i].config.repo_root@ == store
}

/// Some entry of `es` keeps the store `store`.
pub open spec fn has_store(es: Seq<(Seq<char>, Config)>, store: Seq<char>) -> bool {
    exists|i: int| 0 <= i < es.len() && es[i].1.repo_root@ == store
}

/// The inputs that become members, in scan order: the first directory to
/// reach each store.
pub open spec fn first_per_store(ins: Seq<(Seq<char>, Config)>) -> Seq<(Seq<char>, Config)>
    decreases ins.len(),
{
    if ins.len() == 0 {
        Seq::empty()
    } else {
        let rest = first_per_store(ins.drop_last());
        if has_store(rest, ins.last().1.repo_root@) {
            rest
        } else {
            rest.push(ins.last())
        }
    }
}

/// `pre` is the members the scan of `ins` below `root` makes, in scan order:
/// one per store, at the directory and with the configuration that first
/// reached it, each named by its path below the root, de-duplicated against
/// the names given before it.
pub open spec fn scan_members(root: Seq<char>, ins: Seq<(Seq<char>, Config)>, pre: Seq<Member>) -> bool {
    let fps = first_per_store(ins);
    &&& pre.len() == fps.len()
    &&& forall|i: int| 0 <= i < pre.len() ==> (#[trigger] pre[i]).repo@ == fps[i].0 && pre[i].config == fps[i].1
    &&& forall|i: int| 0 <= i < pre.len()
        ==> deduplicated(member_names(pre.take(i)), base_name(root, pre[i].repo@), #[trigger] pre[i].name@)
}

/// `r` holds exactly the members the scan of `ins` below `root` makes.
pub open spec fn collected(root: Seq<char>, ins: Seq<(Seq<char>, Config)>, r: Seq<Member>) -> bool {
    exists|pre: Seq<Member>| #[trigger] scan_members(root, ins, pre) && r.len() == pre.len()
        && forall|x: Member| r.contains(x) <==> pre.contains(x)
}

/// The collector's stores and names as the members give them.
proof fn collector_views(c: &Collector)
    requires
        c.wf(),
    ensures
        str_views(c.stores@).len() == c.members@.len(),
        forall|i: int| 0 <= i < c.members@.len() ==> #[trigger] str_views(c.stores@)[i] == c.members@[i].config.repo_root@,
        str_views(c.names@) == member_names(c.members@),
{
    assert forall|i: int| 0 <= i < c.members@.len() implies #[trigger] str_views(c.stores@)[i] == c.members@[i].config.repo_root@ by {
        assert(str_views(c.stores@)[i] == c.stores@[i]@);
    }
    assert(str_views(c.names@) =~= member_names(c.members@)) by {
        assert forall|i: int| 0 <= i < c.members@.len() implies str_views(c.names@)[i] == member_names(c.members@)[i] by {
            assert(c.members@[i].name@ == c.names@[i]@);
        }
    }
}

/// A de-duplicated name is determined by the names taken and the base.
pub proof fn lemma_deduplicated_unique(taken: Seq<Seq<char>>, base: Seq<char>, a: Seq<char>, b: Seq<char>)
    requires
        deduplicated(taken, base, a),
        deduplicated(taken, base, b),
    ensures
        a == b,
{
    if taken.contains(base) {
        let ka = choose|k: nat| k >= 2 && a == candidate(base, k)
            && forall|j: nat| 2 <= j < k ==> taken.contains(#[trigger] candidate(base, j));
        let kb = choose|k: nat| k >= 2 && b == candidate(base, k)
            && forall|j: nat| 2 <= j < k ==> taken.contains(#[trigger] candidate(base, j));
        if ka < kb {
            assert(taken.contains(candidate(base, ka)));
        } else if kb < ka {
            assert(taken.contains(candidate(base, kb)));
        }
    }
}

/// One step of the scan: adding an entry to the collector extends the members
/// as `first_per_store` says.
proof fn lemma_scan_step(
    root: Seq<char>,
    ins: Seq<(Seq<char>, Config)>,
    e: (Seq<char>, Config),
    before: Seq<Member>,
    after: Seq<Member>,
    stores: Seq<Seq<char>>,
)
    requires
        scan_members(root, ins, before),
        stores.len() == before.len(),
        forall|i: int| 0 <= i < before.len() ==> #[trigger] stores[i] == before[i].config.repo_root@,
        stores.contains(e.1.repo_root@) ==> after == before,
        !stores.contains(e.1.repo_root@) ==> {
            &&& after.len() == before.len() + 1
            &&& after.drop_last() == before
            &&& after.last().repo@ == e.0
            &&& after.last().config == e.1
            &&& deduplicated(member_names(before), base_name(root, e.0), after.last().name@)
        },
    ensures
        scan_members(root, ins.push(e), after),
{
    let fps = first_per_store(ins);
    let np = ins.push(e);
    assert(np.drop_last() =~= ins);
    assert(np.last() == e);
    assert(has_store(fps, e.1.repo_root@) == stores.contains(e.1.repo_root@)) by {
        if has_store(fps, e.1.repo_root@) {
            let i = choose|i: int| 0 <= i < fps.len() && fps[i].1.repo_root@ == e.1.repo_root@;
            assert(before[i].config == fps[i].1);
            assert(stores[i] == e.1.repo_root@);
        }
        if stores.contains(e.1.repo_root@) {
            let i = choose|i: int| 0 <= i < stores.len() && stores[i] == e.1.repo_root@;
            assert(before[i].config == fps[i].1);
        }
    }
    if !stores.contains(e.1.repo_root@) {
        let nf = fps.push(e);
        assert(first_per_store(np) == nf);
        assert forall|i: int| 0 <= i < after.len() implies (#[trigger] after[i]).repo@ == nf[i].0
            && after[i].config == nf[i].1 by {
            if i < before.len() {
                assert(after[i] == before[i]);
            }
        }
        assert forall|i: int| 0 <= i < after.len() implies deduplicated(member_names(after.take(i)),
            base_name(root, after[i].repo@), #[trigger] after[i].name@) by {
            if i < before.len() {
                assert(after[i] == before[i]);
                assert(after.take(i) =~= before.take(i));
            } else {
                assert(after.take(i) =~= before);
            }
        }
    }
}

/// Collect the KBs found below `root`, in the order the scan met them, then
/// our own: each store once (the first directory that reached it names it).
pub fn collect(root: &str, found: Vec<(String, Config)>, own: Option<Config>) -> (r: Vec<Member>)
    requires
        found@.len() + 6 < usize::MAX,
    ensures
        well_named(r@),
        r@.len() <= found@.len() + (if own is Some { 1int } else { 0int }),
        found@.len() > 0 || own is Some ==> r@.len() > 0,
        forall|i: int| 0 <= i < r@.len() ==> drawn_from(#[trigger] r@[i], collect_inputs(found@, own)),
        forall|k: int| 0 <= k < collect_inputs(found@, own).len()
            ==> represented(r@, #[trigger] collect_inputs(found@, own)[k].1.repo_root@),
        collected(root@, collect_inputs(found@, own), r@),
{
    let ghost ins = collect_inputs(found@, own);
    let ghost fv = found@;
    let ghost insf = fv.map_values(|e: (String, Config)| (e.0@, e.1));
    let mut c = Collector::new(root);
    let mut rest = found;
    let ghost n0 = rest@.len();
    proof {
        assert(fv.skip(0) =~= fv);
        assert(insf.take(0) =~= Seq::<(Seq<char>, Config)>::empty());
        assert(first_per_store(insf.take(0)) =~= Seq::<(Seq<char>, Config)>::empty());
    }
    while rest.len() > 0
        invariant
            c.wf(),
            c.root@ == root@,
            scan_members(root@, insf.take(n0 - rest@.len()), c.members@),
            c.members@.len() + rest@.len() <= n0,
            n0 + 6 < usize::MAX,
            n0 > 0 ==> c.members@.len() > 0 || rest@.len() > 0,
            c.members@.len() > 0 || rest@.len() == n0,
            n0 == fv.len(),
            rest@.len() <= n0,
            rest@ == fv.skip(n0 - rest@.len()),
            insf == fv.map_values(|e: (String, Config)| (e.0@, e.1)),
            forall|i: int| 0 <= i < c.members@.len() ==> drawn_from(#[trigger] c.members@[i], insf),
            forall|k: int| 0 <= k < n0 - rest@.len()
                ==> str_views(c.stores@).contains(#[trigger] insf[k].1.repo_root@),
        decreases rest@.len(),
    {
        let ghost p = n0 - rest@.len();
        let ghost before = c.members@;
        let ghost before_stores = str_views(c.stores@);
        let ghost before_raw = c.stores@;
        let ghost before_names = str_views(c.names@);
        assert(rest@[0] == fv[p]);
        let (d, cfg) = rest.remove(0);
        proof {
            assert(rest@ =~= fv.skip(p + 1));
            assert(insf[p] == (d@, cfg));
            collector_views(&c);
        }
        c.add_config(d.as_str(), cfg);
        proof {
            assert(insf.take(p + 1) =~= insf.take(p).push(insf[p]));
            lemma_scan_step(root@, insf.take(p), insf[p], before, c.members@, before_stores);
            if before_stores.contains(insf[p].1.repo_root@) {
            } else {
                assert(str_views(c.stores@).last() == c.stores@.last()@);
                assert(c.stores@.last()@ == c.members@.last().config.repo_root@) by {
                    assert(c.stores@[c.members@.len() - 1]@ == c.members@[c.members@.len() - 1].config.repo_root@);
                }
                assert forall|k: int| 0 <= k < p + 1 implies str_views(c.stores@).contains(#[trigger] insf[k].1.repo_root@) by {
                    if k < p {
                        let j = choose|j: int| 0 <= j < before_stores.len() && before_stores[j] == insf[k].1.repo_root@;
                        assert(c.members@.drop_last() == before);
                        assert(str_views(c.stores@)[j] == c.stores@[j]@);
                        assert(c.stores@[j]@ == c.members@[j].config.repo_root@);
                        assert(before_stores[j] == before_raw[j]@);
                        assert(before_raw[j]@ == before[j].config.repo_root@);
                    } else {
                        assert(str_views(c.stores@)[c.stores@.len() - 1] == insf[k].1.repo_root@);
                    }
                }
                assert forall|i: int| 0 <= i < c.members@.len() implies drawn_from(#[trigger] c.members@[i], insf) by {
                    if i < before.len() {
                        assert(c.members@[i] == before[i]);
                    } else {
                        assert(insf[p].0 == c.members@[i].repo@);
                    }
                }
            }
        }
    }
    proof {
        assert(n0 - rest@.len() == insf.len());
    }
    let ghost mid = c.members@;
    let ghost mid_stores = str_views(c.stores@);
    let ghost mid_raw = c.stores@;
    proof {
        assert(insf.take(insf.len() as int) =~= insf);
        collector_views(&c);
    }
    match own {
        Some(cfg) => {
            let repo = cfg.repo().clone();
            let ghost e = (repo_of(cfg), cfg);
            c.add_config(repo.as_str(), cfg);
            proof {
                lemma_scan_step(root@, insf, e, mid, c.members@, mid_stores);
                assert(insf.push(e) =~= collect_inputs(found@, own));
            }
        },
        None => {
            proof {
                assert(insf =~= collect_inputs(found@, own));
            }
        },
    }
    let ghost pre = c.members@;
    let r = c.finish();
    proof {
        assert(scan_members(root@, collect_inputs(found@, own), pre));
        assert(collected(root@, collect_inputs(found@, own), r@));
        assert(ins =~= insf + match own {
            Some(x) => seq![(repo_of(x), x)],
            None => Seq::<(Seq<char>, Config)>::empty(),
        });
        assert forall|i: int| 0 <= i < r@.len() implies drawn_from(#[trigger] r@[i], ins) by {
            assert(r@.contains(r@[i]));
            let j = choose|j: int| 0 <= j < c.members@.len() && c.members@[j] == r@[i];
            if j < mid.len() {
                assert(c.members@[j] == mid[j]);
                assert(drawn_from(mid[j], insf));
                let k = choose|k: int| 0 <= k < insf.len() && insf[k].0 == mid[j].repo@ && insf[k].1 == mid[j].config;
                assert(ins[k] == insf[k]);
            } else {
                assert(ins[insf.len() as int] == (repo_of(own->0), own->0));
            }
        }
        assert forall|k: int| 0 <= k < ins.len() implies represented(r@, #[trigger] ins[k].1.repo_root@) by {
            let st = ins[k].1.repo_root@;
            let j: int = if k < insf.len() {
                assert(ins[k] == insf[k]);
                assert(mid_stores.contains(st));
                let j0 = choose|j: int| 0 <= j < mid_stores.len() && mid_stores[j] == st;
                assert(mid_stores[j0] == mid_raw[j0]@);
                assert(mid_raw[j0]@ == mid[j0].config.repo_root@);
                j0
            } else {
                assert(ins[k] == (repo_of(own->0), own->0));
                if mid_stores.contains(st) {
                    let j0 = choose|j: int| 0 <= j < mid_stores.len() && mid_stores[j] == st;
                    assert(mid_stores[j0] == mid_raw[j0]@);
                    assert(mid_raw[j0]@ == mid[j0].config.repo_root@);
                    j0
                } else {
                    mid.len() as int
                }
            };
            assert(0 <= j < c.members@.len());
            assert(c.members@[j].config.repo_root@ == st) by {
                if j < mid.len() {
                    if c.members@.len() > mid.len() {
                        assert(c.members@.drop_last() == mid);
                        assert(c.members@[j] == c.members@.drop_last()[j]);
                    }
                } else {
                    assert(c.members@[j] == c.members@.last());
                }
            }
            assert(c.members@.contains(c.members@[j]));
            assert(r@.contains(c.members@[j]));
            let i = choose|i: int| 0 <= i < r@.len() && r@[i] == c.members@[j];
            assert(r@[i].config.repo_root@ == st);
        }
    }
    r
}

impl Workspace {
    /// Settle the KBs in scope. With a KB of our own (`own`) and no `--all`,
    /// it alone; otherwise the KBs `found` below `root` (the folder holding our
    /// repo, or where we stand), joined by our own when we have one. `None`
    /// when there is no KB at all.
    pub fn resolve(own: Option<Config>, all: bool, depth: usize, root: String, found: Vec<(String, Config)>)
        -> (r: Option<Workspace>)
        requires
            found@.len() + 6 < usize::MAX,
        ensures
            own is Some && !all ==> (r matches Some(w) && w.members@.len() == 1 && !w.spans_repos
                && w.depth == 1 && w.members@[0].config == own->0 && w.root@ == repo_of(own->0)
                && w.members@[0].repo@ == w.root@ && w.members@[0].name@ == basename_spec(w.root@)),
            !(own is Some && !all) ==> match r {
                Some(w) => w.spans_repos && w.depth == depth && w.root@ == root@ && well_named(w.members@)
                    && w.members@.len() > 0
                    && (forall|i: int| 0 <= i < w.members@.len()
                        ==> drawn_from(#[trigger] w.members@[i], collect_inputs(found@, own)))
                    && (forall|k: int| 0 <= k < collect_inputs(found@, own).len()
                        ==> represented(w.members@, #[trigger] collect_inputs(found@, own)[k].1.repo_root@))
                    && collected(root@, collect_inputs(found@, own), w.members@),
                None => own is None && found@.len() == 0,
            },
    {
        match own {
            Some(cfg) => {
                if !all {
                    return Some(Workspace::single(cfg));
                }
                let members = collect(root.as_str(), found, Some(cfg));
                Some(Workspace { root, members, spans_repos: true, depth })
            },
            None => {
                let members = collect(root.as_str(), found, None);
                if members.len() == 0 {
                    None
                } else {
                    Some(Workspace { root, members, spans_repos: true, depth })
                }
            },
        }
    }
}


/// A member's name qualifies a document: `<name>:<id>` resolves to that member
/// and that id, whichever members hold the id bare, provided names are
/// distinct and the name holds no `:`.
pub proof fn lemma_qualified_reference(
    names: Seq<Seq<char>>,
    root_names: Seq<char>,
    spans: bool,
    depth: nat,
    i: int,
    id: Seq<char>,
    holders: Seq<bool>,
)
    requires
        names.no_duplicates(),
        0 <= i < names.len(),
        !names[i].contains(':'),
    ensures
        resolve_doc_spec(names, root_names, spans, depth, names[i] + seq![':'] + id, holders) == Ok::<
            (int, Seq<char>),
            Seq<char>,
        >((i, id)),
{
    let r = names[i] + seq![':'] + id;
    let n = names[i].len() as int;
    lemma_char_index_from(r, ':', 0);
    let k = char_index_from(r, ':', 0);
    assert(r[n] == ':');
    if k < n {
        assert(r[k] == names[i][k]);
        assert(names[i].contains(r[k]));
    }
    assert(k == n);
    assert(r.take(n) =~= names[i]);
    assert(r.skip(n + 1) =~= id);
    lemma_name_index(names, names[i]);
    match name_index(names, names[i]) {
        Some(j) => {
            assert(j == i);
        },
        None => {},
    }
}

/// The true positions of `h`, each once and in increasing order.
proof fn lemma_true_indices_exact(h: Seq<bool>)
    ensures
        forall|k: int| 0 <= k < h.len() && h[k] ==> #[trigger] true_indices(h).contains(k),
        forall|k: int| 0 <= k < true_indices(h).len() ==> 0 <= #[trigger] true_indices(h)[k] < h.len()
            && h[true_indices(h)[k]],
        forall|a: int, b: int| 0 <= a < b < true_indices(h).len()
            ==> #[trigger] true_indices(h)[a] < #[trigger] true_indices(h)[b],
    decreases h.len(),
{
    lemma_true_indices(h);
    if h.len() > 0 {
        let p = h.drop_last();
        lemma_true_indices_exact(p);
        let t = true_indices(h);
        let tp = true_indices(p);
        assert forall|k: int| 0 <= k < h.len() && h[k] implies #[trigger] t.contains(k) by {
            if k < p.len() {
                assert(p[k] == h[k]);
                assert(tp.contains(k));
                let j = choose|j: int| 0 <= j < tp.len() && tp[j] == k;
                if h.last() {
                    assert(t == tp.push(h.len() - 1));
                    assert(t[j] == tp[j]);
                } else {
                    assert(t == tp);
                }
            } else {
                assert(t == tp.push(h.len() - 1));
                assert(t[t.len() - 1] == k);
            }
        }
        assert forall|a: int, b: int| 0 <= a < b < t.len() implies #[trigger] t[a] < #[trigger] t[b] by {
            if h.last() {
                assert(t == tp.push(h.len() - 1));
            } else {
                assert(t == tp);
            }
            if h.last() && b == t.len() - 1 {
                assert(t[a] == tp[a]);
                assert(tp[a] < p.len());
            } else if h.last() {
                assert(t[a] == tp[a] && t[b] == tp[b]);
            }
        }
    }
}

/// A bare id is never guessed between repositories: in a workspace of several
/// members it resolves to the one member that holds it, and is refused when two
/// or more hold it.
pub proof fn lemma_bare_reference(
    names: Seq<Seq<char>>,
    root_names: Seq<char>,
    spans: bool,
    depth: nat,
    reference: Seq<char>,
    holders: Seq<bool>,
)
    requires
        !reference.contains(':'),
        names.len() > 1,
        holders.len() == names.len(),
    ensures
        forall|i: int, j: int| 0 <= i < j < holders.len() && #[trigger] holders[i] && #[trigger] holders[j]
            ==> resolve_doc_spec(names, root_names, spans, depth, reference, holders) is Err,
        forall|i: int| 0 <= i < holders.len() && #[trigger] holders[i]
            && (forall|j: int| 0 <= j < holders.len() && j != i ==> !(#[trigger] holders[j]))
            ==> resolve_doc_spec(names, root_names, spans, depth, reference, holders)
                == Ok::<(int, Seq<char>), Seq<char>>((i, reference)),
{
    lemma_char_index_from(reference, ':', 0);
    let k = char_index_from(reference, ':', 0);
    if k < reference.len() {
        assert(reference.contains(reference[k]));
    }
    assert(split_qualifier(reference) is None);
    lemma_true_indices_exact(holders);
    let t = true_indices(holders);
    assert forall|i: int, j: int| 0 <= i < j < holders.len() && #[trigger] holders[i] && #[trigger] holders[j]
        implies resolve_doc_spec(names, root_names, spans, depth, reference, holders) is Err by {
        assert(t.contains(i));
        assert(t.contains(j));
        let a = choose|a: int| 0 <= a < t.len() && t[a] == i;
        let b = choose|b: int| 0 <= b < t.len() && t[b] == j;
        assert(a != b);
        assert(t.len() >= 2);
    }
    assert forall|i: int| 0 <= i < holders.len() && #[trigger] holders[i]
        && (forall|j: int| 0 <= j < holders.len() && j != i ==> !(#[trigger] holders[j]))
        implies resolve_doc_spec(names, root_names, spans, depth, reference, holders)
            == Ok::<(int, Seq<char>), Seq<char>>((i, reference)) by {
        assert(t.contains(i));
        let a = choose|a: int| 0 <= a < t.len() && t[a] == i;
        assert forall|b: int| 0 <= b < t.len() implies #[trigger] t[b] == i by {
            assert(holders[t[b]]);
        }
        if t.len() > 1 {
            assert(t[0] == i && t[1] == i);
            assert(t[0] < t[1]);
        }
        assert(t.len() == 1);
        assert(t[0] == i);
    }
}

// ---------------------------------------------------------------------------
// Scanning for members
// ---------------------------------------------------------------------------

/// A hidden directory: its name starts with `.`.
pub open spec fn is_hidden_spec(path: Seq<char>) -> bool {
    match file_name(path) {
        Some(n) => n.len() > 0 && n[0] == '.',
        None => false,
    }
}

/// Whether the scan skips `path` as hidden.
pub fn is_hidden(path: &str) -> (b: bool)
    ensures
        b == is_hidden_spec(path@),
{
    match file_name_exec(path) {
        Some(n) => {
            let cs = chars_of(n.as_str());
            cs.len() > 0 && cs[0] == '.'
        },
        None => false,
    }
}

/// What the scan does with a directory below the one it reads.
#[derive(Clone, Copy, PartialEq, Eq, Structural, Debug)]
pub enum Visit {
    /// It carries a KB: a member, and the scan does not enter it.
    Member,
    /// The scan goes no further here.
    Skip,
    /// The scan reads it, one level less deep.
    Descend,
}

/// The scan's rule for a non-hidden child directory, with `remaining` levels
/// left at its parent: a KB makes it a member; a git checkout is never
/// entered (repos sit beside each other, not inside one another); else the
/// scan goes down while levels remain.
pub open spec fn visit_spec(has_kb: bool, checkout: bool, remaining: nat) -> Visit {
    if has_kb {
        Visit::Member
    } else if checkout || remaining <= 1 {
        Visit::Skip
    } else {
        Visit::Descend
    }
}

/// Decide what the scan does with a child directory.
pub fn visit(has_kb: bool, checkout: bool, remaining: usize) -> (v: Visit)
    ensures
        v == visit_spec(has_kb, checkout, remaining as nat),
{
    if has_kb {
        Visit::Member
    } else if checkout || remaining <= 1 {
        Visit::Skip
    } else {
        Visit::Descend
    }
}

/// Where a scan that found nothing looks next: the folder holding the
/// enclosing checkout `repo` (given as `parent`), unless that is where it
/// already looked (`root`), or there is no such folder.
pub fn fallback_root(root: &str, parent: Option<&str>) -> (r: Option<String>)
    ensures
        match parent {
            Some(p) => if p@ == root@ { r is None } else { r matches Some(x) && x@ == p@ },
            None => r is None,
        },
{
    match parent {
        Some(p) => {
            let pc = chars_of(p);
            let rc = chars_of(root);
            if seq_eq(&pc, &rc) {
                None
            } else {
                Some(p.to_owned())
            }
        },
        None => None,
    }
}

/// Whether a sibling found by the fallback scan stays: not when it is a clone
/// of the same repository (same identity) as the checkout we stand in.
pub fn keep_sibling(identity: Option<&str>, sibling: Option<&str>) -> (b: bool)
    ensures
        b == !(identity is Some && sibling is Some && sibling->0@ == identity->0@),
{
    match (identity, sibling) {
        (Some(i), Some(s)) => {
            let ic = chars_of(i);
            let sc = chars_of(s);
            !seq_eq(&ic, &sc)
        },
        _ => true,
    }
}

/// The last index at which `c` occurs in `s`, if any.
pub open spec fn last_index_of(s: Seq<char>, c: char) -> Option<int>
    decreases s.len(),
{
    if s.len() == 0 {
        None
    } else if s.last() == c {
        Some(s.len() - 1)
    } else {
        last_index_of(s.drop_last(), c)
    }
}

/// The folder a workspace around the repo `repo` is surveyed from: the
/// folder holding it (`/` for a repo at the top), or the repo itself when its
/// path names no folder. Paths are taken as written: absolute, without `.`
/// or `..` parts.
pub open spec fn survey_root_spec(repo: Seq<char>) -> Seq<char> {
    let t = trim_end_char(repo, '/');
    match last_index_of(t, '/') {
        Some(k) => if k == 0 { seq!['/'] } else { t.take(k) },
        None => repo,
    }
}

/// The folder a workspace around `repo` is surveyed from.
pub fn survey_root(repo: &str) -> (r: String)
    ensures
        r@ == survey_root_spec(repo@),
{
    let cs = chars_of(repo);
    let e = trim_end_char_bound(&cs, 0, cs.len(), '/');
    let ghost t = trim_end_char(repo@, '/');
    let mut k = e;
    proof {
        assert(cs@.subrange(0, cs@.len() as int) =~= cs@);
        assert(cs@.subrange(0, e as int) =~= cs@.take(e as int));
        assert(cs@.take(e as int) == t);
        assert(last_index_of(t, '/') == last_index_of(t.take(k as int), '/')) by {
            assert(t.take(k as int) =~= t);
        }
    }
    while k > 0 && cs[k - 1] != '/'
        invariant
            k <= e,
            e <= cs@.len(),
            cs@ == repo@,
            cs@.take(e as int) == t,
            last_index_of(t, '/') == last_index_of(t.take(k as int), '/'),
        decreases k,
    {
        proof {
            assert(t.take(k as int).last() == cs@[k - 1]);
            assert(t.take(k as int).drop_last() =~= t.take(k - 1));
        }
        k -= 1;
    }
    if k == 0 {
        proof {
            assert(t.take(0) =~= Seq::<char>::empty());
        }
        return repo.to_owned();
    }
    proof {
        assert(t.take(k as int).last() == '/');
        assert(last_index_of(t, '/') == Some(k - 1));
    }
    if k == 1 {
        let slash = vec!['/'];
        return string_of(slash.as_slice());
    }
    let v = slice_of(&cs, 0, k - 1);
    proof {
        assert(v@ =~= t.take(k - 1));
    }
    string_of(&v)
}

/// What `where` answers: `local` or `in-repo` for a KB of our own, else
/// `workspace` when KBs are in scope around us, else nothing.
pub fn where_mode(own_local: Option<bool>, workspace_members: usize) -> (r: Option<&'static str>)
    ensures
        match own_local {
            Some(true) => r matches Some(m) && m@ == "local"@,
            Some(false) => r matches Some(m) && m@ == "in-repo"@,
            None => if workspace_members > 0 { r matches Some(m) && m@ == "workspace"@ } else { r is None },
        },
{
    match own_local {
        Some(true) => Some("local"),
        Some(false) => Some("in-repo"),
        None => if workspace_members > 0 { Some("workspace") } else { None },
    }
}

/// `--depth` beyond one implies `--all` (asking for reach is asking to search
/// wider), and the depth is capped at five. Returns the effective
/// `(all, depth)`.
pub fn effective_reach(all: bool, depth: usize) -> (r: (bool, usize))
    ensures
        r.0 == (all || depth > 1),
        r.1 == if depth > 5 { 5 } else { depth },
{
    (all || depth > 1, if depth > 5 { 5 } else { depth })
}

} // verus!
