//! Configuration: where a knowledge base's state lives, and the settings read
//! from `engrym.toml`.
//!
//! All state is anchored to a state root: the directory holding `engrym.toml`,
//! under which the docs and the derived index live. In-repo, the state root is
//! the repo; in local mode it is an external folder under
//! `~/.engrym/projects/<key>/`, keyed by the repo.

use vstd::prelude::*;
use crate::agents::{join_path, join_path_exec};
use crate::model::opt_str;
use crate::parse::{hex, hex_spec, sha256, sha256_of};
use crate::text::{
    chars_of, split_char, string_of, slice_of, trim_start_char, trim_end_char,
    trim_start_char_bound, trim_end_char_bound, push_str,
};
use vstd::string::StringSliceAdditionalSpecFns;

verus! {

/// The config file's name.
pub const CONFIG_FILENAME: &'static str = "engrym.toml";

/// The directory (under the state root) holding the derived index.
pub const INDEX_DIR: &'static str = ".engrym";

/// The index file's name.
pub const INDEX_FILE: &'static str = "index.db";

/// The directory (under engrym's home) holding local stores.
pub const PROJECTS_SUBDIR: &'static str = "projects";

/// On-disk placement of documents. `id` is the identity regardless, so this
/// only affects how files browse in a tree, an editor or a diff.
#[derive(Clone, Copy, PartialEq, Eq, Structural, Debug)]
pub enum Layout {
    /// Everything flat under the docs root: `<id>.md`.
    Flat,
    /// Mirror the first topic path: `<topic/path>/<id>.md`.
    Topic,
    /// Overviews (altitude 0) at the root; deeper docs in `1/`, `2/`, `3/`.
    Altitude,
}

impl Default for Layout {
    fn default() -> (r: Layout)
        ensures
            r == Layout::Flat,
    {
        Layout::Flat
    }
}

/// `[docs]`: where documents live and how they are placed.
pub struct DocsConfig {
    pub root: String,
    pub layout: Layout,
}

impl Default for DocsConfig {
    fn default() -> (r: DocsConfig)
        ensures
            r.root@ == "docs"@,
            r.layout == Layout::Flat,
    {
        DocsConfig { root: "docs".to_owned(), layout: Layout::Flat }
    }
}

/// `[embedding]`: the embedding provider and model.
pub struct EmbeddingConfig {
    pub provider: String,
    pub model: String,
    pub api_key_env: Option<String>,
}

impl Default for EmbeddingConfig {
    fn default() -> (r: EmbeddingConfig)
        ensures
            r.provider@ == "local"@,
            r.model@ == "bge-small-en-v1.5"@,
            r.api_key_env is None,
    {
        EmbeddingConfig {
            provider: "local".to_owned(),
            model: "bge-small-en-v1.5".to_owned(),
            api_key_env: None,
        }
    }
}

/// `[search]`: the reciprocal-rank-fusion constant.
pub struct SearchConfig {
    pub rrf_k: u32,
}

impl Default for SearchConfig {
    fn default() -> (r: SearchConfig)
        ensures
            r.rrf_k == 60,
    {
        SearchConfig { rrf_k: 60 }
    }
}

/// `[lint]`: whether warnings fail the run.
pub struct LintConfig {
    pub strict: bool,
}

impl Default for LintConfig {
    fn default() -> (r: LintConfig)
        ensures
            !r.strict,
    {
        LintConfig { strict: false }
    }
}

/// `[daemon]`: the warm embedding daemon.
pub struct DaemonConfig {
    pub enabled: bool,
    pub idle_secs: u64,
}

impl Default for DaemonConfig {
    fn default() -> (r: DaemonConfig)
        ensures
            r.enabled,
            r.idle_secs == 300,
    {
        DaemonConfig { enabled: true, idle_secs: 300 }
    }
}

/// A loaded configuration and where its state lives.
pub struct Config {
    pub docs: DocsConfig,
    pub embedding: EmbeddingConfig,
    pub search: SearchConfig,
    pub lint: LintConfig,
    pub daemon: DaemonConfig,
    /// The state root (the directory holding `engrym.toml`).
    pub repo_root: String,
    /// In local mode, the code repo this KB is bound to.
    pub source_repo: Option<String>,
}

/// `rel` resolved against `dir` as `Path::join` does: an absolute `rel`
/// replaces `dir`.
pub open spec fn path_join(dir: Seq<char>, rel: Seq<char>) -> Seq<char> {
    if rel.len() > 0 && rel[0] == '/' {
        rel
    } else {
        join_path(dir, rel)
    }
}

/// `rel` resolved against `dir`.
pub fn path_join_exec(dir: &str, rel: &str) -> (r: String)
    ensures
        r@ == path_join(dir@, rel@),
{
    let rc = chars_of(rel);
    if rc.len() > 0 && rc[0] == '/' {
        string_of(&rc)
    } else {
        join_path_exec(dir, rel)
    }
}

impl Config {
    /// Whether the KB is stored outside the repo (local mode).
    pub fn is_local(&self) -> (b: bool)
        ensures
            b == self.source_repo is Some,
    {
        self.source_repo.is_some()
    }

    /// The docs root directory.
    pub fn docs_root(&self) -> (r: String)
        ensures
            r@ == path_join(self.repo_root@, self.docs.root@),
    {
        path_join_exec(self.repo_root.as_str(), self.docs.root.as_str())
    }

    /// The SQLite index file.
    pub fn index_path(&self) -> (r: String)
        ensures
            r@ == join_path(join_path(self.repo_root@, INDEX_DIR@), INDEX_FILE@),
    {
        let d = join_path_exec(self.repo_root.as_str(), INDEX_DIR);
        join_path_exec(d.as_str(), INDEX_FILE)
    }

    /// The Unix socket the warm embedding daemon listens on.
    pub fn socket_path(&self) -> (r: String)
        ensures
            r@ == join_path(join_path(self.repo_root@, INDEX_DIR@), "engrym.sock"@),
    {
        let d = join_path_exec(self.repo_root.as_str(), INDEX_DIR);
        join_path_exec(d.as_str(), "engrym.sock")
    }

    /// Whether the warm daemon may be used: enabled in the config and not
    /// switched off by `ENGRYM_NO_DAEMON` (`no_daemon_env`).
    pub fn daemon_enabled(&self, no_daemon_env: bool) -> (b: bool)
        ensures
            b == (self.daemon.enabled && !no_daemon_env),
    {
        self.daemon.enabled && !no_daemon_env
    }
}

/// engrym's user-global home: `$ENGRYM_HOME`, else `$HOME/.engrym`.
pub fn engrym_home(engrym_home_env: Option<&str>, home_env: Option<&str>) -> (r: Option<String>)
    ensures
        match (engrym_home_env, home_env) {
            (Some(e), _) => r matches Some(x) && x@ == e@,
            (None, Some(h)) => r matches Some(x) && x@ == join_path(h@, ".engrym"@),
            (None, None) => r is None,
        },
{
    match engrym_home_env {
        Some(e) => Some(e.to_owned()),
        None => match home_env {
            Some(h) => Some(join_path_exec(h, ".engrym")),
            None => None,
        },
    }
}

/// Where local project KBs live: `<engrym_home>/projects`.
pub fn projects_root(engrym_home: Option<&str>) -> (r: Option<String>)
    ensures
        match engrym_home {
            Some(h) => r matches Some(x) && x@ == join_path(h@, PROJECTS_SUBDIR@),
            None => r is None,
        },
{
    match engrym_home {
        Some(h) => Some(join_path_exec(h, PROJECTS_SUBDIR)),
        None => None,
    }
}

/// The local KB directory bound to `anchor`, when the store root resolves.
pub fn local_project_dir(projects_root: Option<&str>, anchor: &str) -> (r: Option<String>)
    ensures
        match projects_root {
            Some(p) => r matches Some(x) && x@ == join_path(p@, project_key_spec(anchor@)),
            None => r is None,
        },
{
    match projects_root {
        Some(p) => {
            let k = project_key(anchor);
            Some(join_path_exec(p, k.as_str()))
        },
        None => None,
    }
}

// ---------------------------------------------------------------------------
// Project keys
// ---------------------------------------------------------------------------

/// The path components a file name can come from: non-empty and not `.`.
pub open spec fn name_components(cs: Seq<Seq<char>>) -> Seq<Seq<char>>
    decreases cs.len(),
{
    if cs.len() == 0 {
        Seq::empty()
    } else {
        let rest = name_components(cs.drop_last());
        if cs.last().len() > 0 && cs.last() != "."@ {
            rest.push(cs.last())
        } else {
            rest
        }
    }
}

/// The final component of a path, as `Path::file_name` gives it: `None` for
/// the root, for `.`, and for a path ending in `..`.
pub open spec fn file_name(p: Seq<char>) -> Option<Seq<char>> {
    let cs = name_components(split_char(p, '/'));
    if cs.len() == 0 || cs.last() == ".."@ {
        None
    } else {
        Some(cs.last())
    }
}

/// An ASCII letter or digit.
pub open spec fn is_ascii_alnum(c: char) -> bool {
    ('0' <= c && c <= '9') || ('a' <= c && c <= 'z') || ('A' <= c && c <= 'Z')
}

/// A name with every character other than ASCII letters, digits, `-` and `_`
/// replaced by `-`.
pub open spec fn slug_chars(s: Seq<char>) -> Seq<char> {
    s.map_values(|c: char| if is_ascii_alnum(c) || c == '-' || c == '_' { c } else { '-' })
}

/// The readable part of a project key.
pub open spec fn slug(anchor: Seq<char>) -> Seq<char> {
    let name = match file_name(anchor) {
        Some(n) => n,
        None => "repo"@,
    };
    let s = trim_end_char(trim_start_char(slug_chars(name), '-'), '-');
    if s.len() == 0 { "repo"@ } else { s }
}

/// A filesystem-safe, readable, collision-resistant key for a repo:
/// `<slug of its basename>-<8 hex digits of SHA-256 of its path>`.
pub open spec fn project_key_spec(anchor: Seq<char>) -> Seq<char> {
    slug(anchor) + seq!['-'] + hex_spec(sha256_of(crate::text::utf8_of(anchor)).take(4))
}

pub(crate) fn file_name_exec(p: &str) -> (r: Option<String>)
    ensures
        opt_str(r) == file_name(p@),
{
    let cs = chars_of(p);
    let parts = crate::text::split_char_exec(&cs, '/');
    let mut comps: Vec<Vec<char>> = Vec::new();
    let ghost pv = crate::text::views(parts@);
    let dot = chars_of(".");
    let dotdot = chars_of("..");
    let mut i: usize = 0;
    proof {
        assert(pv.take(0) =~= Seq::<Seq<char>>::empty());
        assert(crate::text::views(comps@) =~= Seq::<Seq<char>>::empty());
    }
    while i < parts.len()
        invariant
            i <= parts@.len(),
            pv == crate::text::views(parts@),
            pv == split_char(p@, '/'),
            dot@ == "."@,
            dotdot@ == ".."@,
            crate::text::views(comps@) == name_components(pv.take(i as int)),
        decreases parts@.len() - i,
    {
        proof {
            assert(pv.take(i + 1).drop_last() =~= pv.take(i as int));
            assert(pv.take(i + 1).last() == parts@[i as int]@);
        }
        if parts[i].len() > 0 && !crate::text::seq_eq(&parts[i], &dot) {
            let ghost before = crate::text::views(comps@);
            comps.push(slice_of(&parts[i], 0, parts[i].len()));
            proof {
                assert(parts@[i as int]@.subrange(0, parts@[i as int]@.len() as int) =~= parts@[i as int]@);
                assert(crate::text::views(comps@) =~= before.push(parts@[i as int]@));
            }
        }
        i += 1;
    }
    proof {
        assert(pv.take(i as int) =~= pv);
    }
    if comps.len() == 0 {
        return None;
    }
    let last = &comps[comps.len() - 1];
    if crate::text::seq_eq(last, &dotdot) {
        None
    } else {
        Some(string_of(last))
    }
}

fn slug_exec(anchor: &str) -> (r: Vec<char>)
    ensures
        r@ == slug(anchor@),
{
    let name = match file_name_exec(anchor) {
        Some(n) => chars_of(n.as_str()),
        None => chars_of("repo"),
    };
    let mut mapped: Vec<char> = Vec::new();
    let mut i: usize = 0;
    while i < name.len()
        invariant
            i <= name@.len(),
            mapped@ == slug_chars(name@.take(i as int)),
        decreases name@.len() - i,
    {
        let c = name[i];
        let ok = ('0' <= c && c <= '9') || ('a' <= c && c <= 'z') || ('A' <= c && c <= 'Z') || c == '-' || c == '_';
        mapped.push(if ok { c } else { '-' });
        proof {
            assert(slug_chars(name@.take(i + 1)) =~= slug_chars(name@.take(i as int)).push(
                if ok { c } else { '-' },
            ));
        }
        i += 1;
    }
    proof {
        assert(name@.take(name@.len() as int) =~= name@);
    }
    let a = trim_start_char_bound(&mapped, 0, mapped.len(), '-');
    let b = trim_end_char_bound(&mapped, a, mapped.len(), '-');
    proof {
        assert(mapped@.subrange(0, mapped@.len() as int) =~= mapped@);
    }
    if b == a {
        chars_of("repo")
    } else {
        slice_of(&mapped, a, b)
    }
}

/// The store key for a repo anchor: `<slug>-<8 hex digits>`.
pub fn project_key(anchor: &str) -> (r: String)
    ensures
        r@ == project_key_spec(anchor@),
{
    let mut out = slug_exec(anchor);
    out.push('-');
    let d = sha256(anchor.as_bytes());
    let first = slice_u8(&d, 4);
    let h = hex(first.as_slice());
    push_str(&mut out, h.as_str());
    string_of(&out)
}

fn slice_u8(v: &Vec<u8>, n: usize) -> (r: Vec<u8>)
    requires
        n <= v@.len(),
    ensures
        r@ == v@.take(n as int),
{
    let mut out: Vec<u8> = Vec::new();
    let mut i: usize = 0;
    while i < n
        invariant
            i <= n <= v@.len(),
            out@ == v@.take(i as int),
        decreases n - i,
    {
        out.push(v[i]);
        proof {
            assert(v@.take(i + 1) =~= v@.take(i as int).push(v@[i as int]));
        }
        i += 1;
    }
    out
}


/// A directory's display name: its final component, or `repo` when it has none.
pub open spec fn basename_spec(dir: Seq<char>) -> Seq<char> {
    match file_name(dir) {
        Some(n) => n,
        None => "repo"@,
    }
}

/// A directory's display name.
pub fn basename(dir: &str) -> (r: String)
    ensures
        r@ == basename_spec(dir@),
{
    match file_name_exec(dir) {
        Some(n) => n,
        None => "repo".to_owned(),
    }
}

/// The message when no KB is reachable from `start`.
pub open spec fn no_kb_message(start: Seq<char>) -> Seq<char> {
    "no "@ + CONFIG_FILENAME@ + " found in "@ + start
        + " or any parent, and no local engrym KB is bound to this repo — run `engrym init` (in-repo) or `engrym init --local` (external)"@
}

impl Config {
    /// The code repo this KB belongs to: the bound repo in local mode, else
    /// the state root.
    pub fn repo(&self) -> (r: &String)
        ensures
            match self.source_repo {
                Some(s) => r@ == s@,
                None => r@ == self.repo_root@,
            },
    {
        match &self.source_repo {
            Some(s) => s,
            None => &self.repo_root,
        }
    }

    /// The KB reachable from `start`: an in-repo configuration (found walking
    /// up) wins over a local store bound to the repo; with neither there is
    /// none, and the error says how to make one.
    pub fn discover(in_repo: Option<Config>, local_store: Option<Config>, start: &str) -> (r: Result<Config, String>)
        ensures
            match (in_repo, local_store) {
                (Some(c), _) => r == Ok::<Config, String>(c),
                (None, Some(c)) => r == Ok::<Config, String>(c),
                (None, None) => r matches Err(m) && m@ == no_kb_message(start@),
            },
    {
        match in_repo {
            Some(c) => Ok(c),
            None => match local_store {
                Some(c) => Ok(c),
                None => {
                    let mut out: Vec<char> = Vec::new();
                    push_str(&mut out, "no ");
                    push_str(&mut out, CONFIG_FILENAME);
                    push_str(&mut out, " found in ");
                    push_str(&mut out, start);
                    push_str(&mut out, " or any parent, and no local engrym KB is bound to this repo — run `engrym init` (in-repo) or `engrym init --local` (external)");
                    Err(string_of(&out))
                },
            },
        }
    }
}

} // verus!
