//! Setting a repository up and taking it down again: what `init` writes, where
//! it writes it, how the agent is handed the bootstrap task, and when `reset`
//! and `deinit` may delete anything.
//!
//! Everything here decides; the caller reads and writes the files.

use vstd::prelude::*;
use crate::agents::{
    agent_rows, agent_table, join_path, join_path_exec, known_agents, trimmed, AgentRow, SkillLoc,
    BOOTSTRAP_SKILL, WORKING_SKILL,
};
use crate::config::{CONFIG_FILENAME, INDEX_DIR};
use crate::parse::words_exec;
use crate::text::{
    chars_of, contains_seq, find, find_from_exec, join, join_exec, lines, lines_exec, occurs_at,
    push_str, replace, replace_exec, seq_eq, slice_of, split_char, split_char_exec, starts_with,
    str_views, string_of, trim, trim_bounds, trim_end, trim_end_bound, trim_end_char,
    trim_end_char_bound, views, words, lemma_find_from, usize_to_string, decimal, lemma_lines_tail,
    lemma_trim_fixed, no_char, lemma_lines_cons, lemma_lines_append, lemma_lines_newline,
    lemma_trim_drop_space, lemma_blank_trim, strip_cr,
};

verus! {

/// The task handed to the agent after `init`.
pub const BOOTSTRAP_PROMPT: &'static str = "engrym is already initialized for this repository — do NOT run `engrym init` again. (The knowledge base may be stored outside the repo, so a missing engrym.toml in the working tree is expected, not a sign it needs setup.) Use the engrym-bootstrap skill to analyze the repo and build a high-value initial knowledge base, authoring documents with `engrym new`.";

/// The placeholder a launch template marks the task with.
pub const PROMPT_PLACEHOLDER: &'static str = "{prompt}";

/// The comment line `init` writes above the ignore entry.
pub const GITIGNORE_COMMENT: &'static str = "# engrym derived index (rebuildable)";

/// The ignore entry for the derived index.
pub const GITIGNORE_ENTRY: &'static str = ".engrym/";

/// The docs directory when none is chosen.
pub const DEFAULT_DOCS: &'static str = "docs";

/// The docs-root line of the configuration template.
pub const TEMPLATE_DOCS_LINE: &'static str = "root = \"docs\"";

/// What `engrym init` was asked to do.
pub struct InitArgs {
    /// Root of the repo to initialize.
    pub root: String,
    /// Known agent to launch by binary name, or "none".
    pub agent: Option<String>,
    /// Custom launch command template.
    pub agent_cmd: Option<String>,
    /// Store the KB outside the repo.
    pub local: bool,
    /// Docs directory, relative to the state root.
    pub docs: Option<String>,
    /// Re-scaffold even if the configuration already exists.
    pub force: bool,
    pub json: bool,
}

// ---------------------------------------------------------------------------
// Docs root
// ---------------------------------------------------------------------------

/// The docs root as given, trimmed and without trailing slashes.
pub open spec fn docs_candidate(s: Seq<char>) -> Seq<char> {
    trim_end_char(trim(s), '/')
}

/// A docs root that would escape or alias the repo: absolute, `.`, or with a
/// `..` component.
pub open spec fn unsafe_docs_root(c: Seq<char>) -> bool {
    ||| starts_with(c, "/"@)
    ||| c == "."@
    ||| split_char(c, '/').contains(".."@)
}

/// A docs root that is not a relative path inside the repo.
pub enum DocsRootError {
    NotRelative { got: String },
}

impl DocsRootError {
    pub fn message(&self) -> (r: String)
        ensures
            match self {
                DocsRootError::NotRelative { got } => r@
                    == "docs directory must be a relative path inside the repo (got `"@ + got@ + "`)"@,
            },
    {
        let mut out: Vec<char> = Vec::new();
        match self {
            DocsRootError::NotRelative { got } => {
                push_str(&mut out, "docs directory must be a relative path inside the repo (got `");
                push_str(&mut out, got.as_str());
                push_str(&mut out, "`)");
            },
        }
        string_of(&out)
    }
}

/// `r` is what validating the docs root `s` gives: the default for an empty
/// one, the refusal for an unsafe one, else the cleaned-up path.
pub open spec fn docs_root_result(s: Seq<char>, r: Result<String, DocsRootError>) -> bool {
    let c = docs_candidate(s);
    if c.len() == 0 {
        r matches Ok(d) && d@ == DEFAULT_DOCS@
    } else if unsafe_docs_root(c) {
        r matches Err(DocsRootError::NotRelative { got }) && got@ == c
    } else {
        r matches Ok(d) && d@ == c
    }
}

/// Whether any piece equals `..`.
fn has_parent_component(parts: &Vec<Vec<char>>) -> (b: bool)
    ensures
        b == views(parts@).contains(".."@),
{
    let dd = chars_of("..");
    let mut i: usize = 0;
    while i < parts.len()
        invariant
            i <= parts@.len(),
            dd@ == ".."@,
            forall|j: int| 0 <= j < i ==> parts@[j]@ != ".."@,
        decreases parts@.len() - i,
    {
        if seq_eq(&parts[i], &dd) {
            assert(views(parts@)[i as int] == ".."@);
            return true;
        }
        i += 1;
    }
    proof {
        if views(parts@).contains(".."@) {
            let j = choose|j: int| 0 <= j < views(parts@).len() && views(parts@)[j] == ".."@;
            assert(parts@[j]@ == ".."@);
        }
    }
    false
}

/// Validate a docs root: a relative path inside the repo. Empty means the
/// default; an absolute path, `.`, or a `..` component is refused.
pub fn valid_docs_root(s: &str) -> (r: Result<String, DocsRootError>)
    ensures
        docs_root_result(s@, r),
{
    let t = trimmed(s);
    let cs = chars_of(t.as_str());
    let e = trim_end_char_bound(&cs, 0, cs.len(), '/');
    let c = slice_of(&cs, 0, e);
    proof {
        assert(cs@.subrange(0, cs@.len() as int) =~= cs@);
    }
    if c.len() == 0 {
        return Ok(DEFAULT_DOCS.to_owned());
    }
    let slash = chars_of("/");
    let dot = chars_of(".");
    let parts = split_char_exec(&c, '/');
    proof {
        reveal_strlit("/");
        reveal_strlit(".");
        reveal_strlit("..");
    }
    let absolute = c[0] == '/';
    proof {
        assert(absolute == starts_with(c@, "/"@)) by {
            if starts_with(c@, "/"@) {
                assert(c@.take(1)[0] == c@[0]);
            }
            if absolute {
                assert(c@.take(1) =~= "/"@);
            }
        }
    }
    if absolute || seq_eq(&c, &dot) || has_parent_component(&parts) {
        return Err(DocsRootError::NotRelative { got: string_of(&c) });
    }
    Ok(string_of(&c))
}

/// The docs root `init` uses: the `--docs` flag when given, else the answer
/// to the prompt when one was asked, else the default.
pub fn docs_root_choice(flag: Option<&str>, entered: Option<&str>) -> (r: Result<String, DocsRootError>)
    ensures
        match flag {
            Some(f) => docs_root_result(f@, r),
            None => match entered {
                Some(e) => docs_root_result(e@, r),
                None => r matches Ok(d) && d@ == DEFAULT_DOCS@,
            },
        },
{
    match flag {
        Some(f) => valid_docs_root(f),
        None => match entered {
            Some(e) => valid_docs_root(e),
            None => Ok(DEFAULT_DOCS.to_owned()),
        },
    }
}



// ---------------------------------------------------------------------------
// Configuration text
// ---------------------------------------------------------------------------

/// The template with its docs root set to `docs_root`.
pub open spec fn config_text_spec(template: Seq<char>, docs_root: Seq<char>) -> Seq<char> {
    replace(template, TEMPLATE_DOCS_LINE@, "root = \""@ + docs_root + "\""@)
}

/// The configuration `init` writes: the template with its docs root set.
pub fn config_text(template: &str, docs_root: &str) -> (r: String)
    ensures
        r@ == config_text_spec(template@, docs_root@),
{
    let mut line: Vec<char> = Vec::new();
    push_str(&mut line, "root = \"");
    push_str(&mut line, docs_root);
    push_str(&mut line, "\"");
    let line = string_of(&line);
    proof {
        reveal_strlit("root = \"docs\"");
    }
    replace_exec(template, TEMPLATE_DOCS_LINE, line.as_str())
}

/// The header a local KB's configuration starts with.
pub open spec fn local_header(repo: Seq<char>, store: Seq<char>) -> Seq<char> {
    "# engrym knowledge base — stored locally, OUTSIDE the code repository.\n# Bound to repo: "@
        + repo + "\n# Lives in:      "@ + store
        + "\n# The repo is never modified; delete that folder to reset this KB.\n\n"@
}

/// The configuration of a local KB: the header recording the bound repo and
/// the store, then the template from its `[docs]` section on (the whole
/// template when it has none).
pub open spec fn local_config_spec(template: Seq<char>, repo: Seq<char>, store: Seq<char>) -> Seq<char> {
    let body = match find(template, "[docs]"@) {
        Some(i) => template.skip(i),
        None => template,
    };
    local_header(repo, store) + body
}

/// Build the configuration of a local KB.
pub fn local_config(template: &str, repo: &str, store: &str) -> (r: String)
    ensures
        r@ == local_config_spec(template@, repo@, store@),
{
    let cs = chars_of(template);
    let pat = chars_of("[docs]");
    let mut out: Vec<char> = Vec::new();
    push_str(&mut out, "# engrym knowledge base — stored locally, OUTSIDE the code repository.\n# Bound to repo: ");
    push_str(&mut out, repo);
    push_str(&mut out, "\n# Lives in:      ");
    push_str(&mut out, store);
    push_str(&mut out, "\n# The repo is never modified; delete that folder to reset this KB.\n\n");
    match find_from_exec(&cs, &pat, 0) {
        Some(i) => {
            proof {
                lemma_find_from(cs@, pat@, 0);
            }
            let rest = slice_of(&cs, i, cs.len());
            proof {
                assert(rest@ =~= cs@.skip(i as int));
            }
            let ghost before = out@;
            crate::text::push_all(&mut out, &rest);
        },
        None => {
            crate::text::push_all(&mut out, &cs);
        },
    }
    string_of(&out)
}

// ---------------------------------------------------------------------------
// Handing off to the agent
// ---------------------------------------------------------------------------

/// A launch argument with the task substituted for its placeholder.
pub open spec fn with_prompt(arg: Seq<char>) -> Seq<char> {
    replace(arg, PROMPT_PLACEHOLDER@, BOOTSTRAP_PROMPT@)
}

/// Each launch argument with the task substituted.
pub open spec fn with_prompt_all(args: Seq<Seq<char>>) -> Seq<Seq<char>> {
    args.map_values(|a: Seq<char>| with_prompt(a))
}

/// The arguments a known agent is launched with.
pub fn resolve_prompt_args(template: &Vec<String>) -> (r: Vec<String>)
    ensures
        str_views(r@) == with_prompt_all(str_views(template@)),
{
    proof {
        reveal_strlit("{prompt}");
    }
    let mut out: Vec<String> = Vec::new();
    let mut i: usize = 0;
    while i < template.len()
        invariant
            i <= template@.len(),
            PROMPT_PLACEHOLDER@.len() > 0,
            str_views(out@) == with_prompt_all(str_views(template@)).take(i as int),
        decreases template@.len() - i,
    {
        let a = replace_exec(template[i].as_str(), PROMPT_PLACEHOLDER, BOOTSTRAP_PROMPT);
        let ghost before = str_views(out@);
        out.push(a);
        proof {
            assert(str_views(out@) =~= before.push(with_prompt(template@[i as int]@)));
            assert(with_prompt_all(str_views(template@)).take(i + 1)
                =~= with_prompt_all(str_views(template@)).take(i as int).push(with_prompt(template@[i as int]@)));
        }
        i += 1;
    }
    proof {
        assert(with_prompt_all(str_views(template@)).take(template@.len() as int)
            =~= with_prompt_all(str_views(template@)));
    }
    out
}

/// The words of a custom launch command with the task substituted, and the
/// task appended when no word carried the placeholder.
pub open spec fn custom_words(template: Seq<char>) -> Seq<Seq<char>> {
    let ws = words(template);
    let rs = with_prompt_all(ws);
    if exists|i: int| 0 <= i < ws.len() && contains_seq(#[trigger] ws[i], PROMPT_PLACEHOLDER@) {
        rs
    } else {
        rs.push(BOOTSTRAP_PROMPT@)
    }
}

/// Whether `s` contains `p`.
fn contains_exec(s: &str, p: &str) -> (b: bool)
    ensures
        b == contains_seq(s@, p@),
{
    let cs = chars_of(s);
    let ps = chars_of(p);
    let r = find_from_exec(&cs, &ps, 0);
    proof {
        lemma_find_from(cs@, ps@, 0);
        if contains_seq(cs@, ps@) {
            let k = choose|k: int| occurs_at(cs@, ps@, k);
            assert(occurs_at(cs@, ps@, k));
        }
    }
    r.is_some()
}

/// The program and arguments a custom launch command runs: its words with
/// the task substituted for `{prompt}` (or appended when absent). `None` for
/// a blank command.
pub fn custom_launch(template: &str) -> (r: Option<(String, Vec<String>)>)
    ensures
        ({
            let cw = custom_words(template@);
            if words(template@).len() == 0 {
                r is None
            } else {
                r matches Some((p, rest)) && p@ == cw[0] && str_views(rest@) == cw.skip(1)
            }
        }),
{
    let ws = words_exec(template);
    if ws.len() == 0 {
        return None;
    }
    let mut had = false;
    let mut i: usize = 0;
    while i < ws.len()
        invariant
            i <= ws@.len(),
            had == exists|j: int| 0 <= j < i && contains_seq(#[trigger] str_views(ws@)[j], PROMPT_PLACEHOLDER@),
        decreases ws@.len() - i,
    {
        let c = contains_exec(ws[i].as_str(), PROMPT_PLACEHOLDER);
        proof {
            assert(str_views(ws@)[i as int] == ws@[i as int]@);
            if had {
                let j = choose|j: int| 0 <= j < i && contains_seq(#[trigger] str_views(ws@)[j], PROMPT_PLACEHOLDER@);
                assert(0 <= j < i + 1);
            }
        }
        had = had || c;
        i += 1;
    }
    let mut parts = resolve_prompt_args(&ws);
    if !had {
        parts.push(BOOTSTRAP_PROMPT.to_owned());
    }
    let ghost cw = custom_words(template@);
    proof {
        if !had {
            assert(str_views(parts@) =~= with_prompt_all(str_views(ws@)).push(BOOTSTRAP_PROMPT@));
        }
        assert(str_views(parts@) == cw);
    }
    let program = parts[0].clone();
    let mut rest: Vec<String> = Vec::new();
    let mut k: usize = 1;
    while k < parts.len()
        invariant
            1 <= k <= parts@.len(),
            str_views(rest@) == str_views(parts@).subrange(1, k as int),
        decreases parts@.len() - k,
    {
        let ghost before = str_views(rest@);
        let c = parts[k].clone();
        rest.push(c);
        proof {
            assert(str_views(rest@) =~= before.push(parts@[k as int]@));
            assert(str_views(rest@) =~= str_views(parts@).subrange(1, k + 1));
        }
        k += 1;
    }
    proof {
        assert(str_views(parts@).subrange(1, parts@.len() as int) =~= cw.skip(1));
    }
    Some((program, rest))
}


// ---------------------------------------------------------------------------
// .gitignore
// ---------------------------------------------------------------------------

/// A `.gitignore` line that is the index entry.
pub open spec fn is_index_entry(l: Seq<char>) -> bool {
    trim(l) == GITIGNORE_ENTRY@
}

/// Whether a `.gitignore` already ignores the index.
pub open spec fn has_index_entry(body: Seq<char>) -> bool {
    exists|i: int| 0 <= i < lines(body).len() && is_index_entry(#[trigger] lines(body)[i])
}

/// Whether `line`, trimmed, equals `target`.
fn trimmed_is(line: &Vec<char>, target: &Vec<char>) -> (b: bool)
    ensures
        b == (trim(line@) == target@),
{
    let (a, e) = trim_bounds(line, 0, line.len());
    proof {
        assert(line@.subrange(0, line@.len() as int) =~= line@);
    }
    let t = slice_of(line, a, e);
    seq_eq(&t, target)
}

/// Whether the `.gitignore` text `body` already ignores the index.
pub fn gitignore_has_entry(body: &str) -> (b: bool)
    ensures
        b == has_index_entry(body@),
{
    let cs = chars_of(body);
    let ls = lines_exec(&cs);
    let entry = chars_of(GITIGNORE_ENTRY);
    let mut i: usize = 0;
    while i < ls.len()
        invariant
            i <= ls@.len(),
            views(ls@) == lines(body@),
            entry@ == GITIGNORE_ENTRY@,
            forall|j: int| 0 <= j < i ==> !is_index_entry(#[trigger] lines(body@)[j]),
        decreases ls@.len() - i,
    {
        assert(views(ls@)[i as int] == ls@[i as int]@);
        if trimmed_is(&ls[i], &entry) {
            return true;
        }
        i += 1;
    }
    false
}

/// The lines `init` appends for the index, after `prefix`.
pub open spec fn ignore_block(prefix: Seq<char>) -> Seq<char> {
    prefix + "\n"@ + GITIGNORE_COMMENT@ + "\n"@ + GITIGNORE_ENTRY@ + "\n"@
}

/// The new `.gitignore` text, or `None` when it already ignores the index.
/// A missing file (`None`) gets the comment and the entry; an existing one
/// gets them appended, after a newline when it does not end with one.
pub open spec fn gitignore_update_spec(current: Option<Seq<char>>) -> Option<Seq<char>> {
    match current {
        None => Some(GITIGNORE_COMMENT@ + "\n"@ + GITIGNORE_ENTRY@ + "\n"@),
        Some(c) => if has_index_entry(c) {
            None
        } else if c.len() == 0 || c.last() == '\n' {
            Some(c + ignore_block(""@))
        } else {
            Some(c + ignore_block("\n"@))
        },
    }
}

/// The `.gitignore` text after making sure the index is ignored.
pub fn gitignore_update(current: Option<&str>) -> (r: Option<String>)
    ensures
        opt_seq(r) == gitignore_update_spec(opt_str_seq(current)),
{
    let mut out: Vec<char> = Vec::new();
    match current {
        None => {
            push_str(&mut out, GITIGNORE_COMMENT);
            push_str(&mut out, "\n");
            push_str(&mut out, GITIGNORE_ENTRY);
            push_str(&mut out, "\n");
            Some(string_of(&out))
        },
        Some(c) => {
            if gitignore_has_entry(c) {
                return None;
            }
            let cs = chars_of(c);
            push_str(&mut out, c);
            if cs.len() > 0 && cs[cs.len() - 1] != '\n' {
                push_str(&mut out, "\n");
            }
            push_str(&mut out, "\n");
            push_str(&mut out, GITIGNORE_COMMENT);
            push_str(&mut out, "\n");
            push_str(&mut out, GITIGNORE_ENTRY);
            push_str(&mut out, "\n");
            proof {
                reveal_strlit("");
                reveal_strlit("\n");
            }
            Some(string_of(&out))
        },
    }
}

/// The view of an optional string.
pub open spec fn opt_seq(o: Option<String>) -> Option<Seq<char>> {
    match o {
        Some(s) => Some(s@),
        None => None,
    }
}

/// The view of an optional string slice.
pub open spec fn opt_str_seq(o: Option<&str>) -> Option<Seq<char>> {
    match o {
        Some(s) => Some(s@),
        None => None,
    }
}

/// A line `deinit` keeps in `.gitignore`: neither the entry nor the comment.
pub open spec fn keep_ignore_line(l: Seq<char>) -> bool {
    trim(l) != GITIGNORE_ENTRY@ && trim(l) != GITIGNORE_COMMENT@
}

/// The lines `deinit` keeps, in order.
pub open spec fn kept_lines(ls: Seq<Seq<char>>) -> Seq<Seq<char>>
    decreases ls.len(),
{
    if ls.len() == 0 {
        Seq::empty()
    } else if keep_ignore_line(ls.last()) {
        kept_lines(ls.drop_last()).push(ls.last())
    } else {
        kept_lines(ls.drop_last())
    }
}

/// `.gitignore` without engrym's lines: `None` when nothing else remains (the
/// file goes), else the remaining lines with one trailing newline.
pub open spec fn cleaned_gitignore(body: Seq<char>) -> Option<Seq<char>> {
    let j = join(kept_lines(lines(body)), "\n"@);
    if trim(j).len() == 0 {
        None
    } else {
        Some(trim_end(j) + "\n"@)
    }
}

/// Strip engrym's lines from a `.gitignore`.
pub fn clean_gitignore(body: &str) -> (r: Option<String>)
    ensures
        opt_seq(r) == cleaned_gitignore(body@),
{
    let cs = chars_of(body);
    let ls = lines_exec(&cs);
    let entry = chars_of(GITIGNORE_ENTRY);
    let comment = chars_of(GITIGNORE_COMMENT);
    let mut kept: Vec<String> = Vec::new();
    let mut i: usize = 0;
    proof {
        assert(lines(body@).take(0) =~= Seq::<Seq<char>>::empty());
        assert(str_views(kept@) =~= Seq::<Seq<char>>::empty());
    }
    while i < ls.len()
        invariant
            i <= ls@.len(),
            views(ls@) == lines(body@),
            entry@ == GITIGNORE_ENTRY@,
            comment@ == GITIGNORE_COMMENT@,
            str_views(kept@) == kept_lines(lines(body@).take(i as int)),
        decreases ls@.len() - i,
    {
        let ghost t = lines(body@).take(i + 1);
        proof {
            assert(views(ls@)[i as int] == ls@[i as int]@);
            assert(t.drop_last() =~= lines(body@).take(i as int));
            assert(t.last() == ls@[i as int]@);
        }
        if !trimmed_is(&ls[i], &entry) && !trimmed_is(&ls[i], &comment) {
            let ghost before = str_views(kept@);
            kept.push(string_of(&ls[i]));
            proof {
                assert(str_views(kept@) =~= before.push(ls@[i as int]@));
            }
        }
        i += 1;
    }
    proof {
        assert(lines(body@).take(ls@.len() as int) =~= lines(body@));
    }
    let joined = join_exec(&kept, "\n");
    let js = chars_of(joined.as_str());
    let (a, b) = trim_bounds(&js, 0, js.len());
    proof {
        assert(js@.subrange(0, js@.len() as int) =~= js@);
    }
    if a == b {
        return None;
    }
    let e = trim_end_bound(&js, 0, js.len());
    let mut out = slice_of(&js, 0, e);
    out.push('\n');
    proof {
        reveal_strlit("\n");
        assert(out@ =~= trim_end(js@) + "\n"@);
    }
    Some(string_of(&out))
}


// ---------------------------------------------------------------------------
// init
// ---------------------------------------------------------------------------

/// Why `init` stops.
pub enum InitError {
    /// A local store was asked for but the store root is unknown.
    NoStore,
    /// The configuration exists and `--force` was not given.
    AlreadyInitialized { path: String },
    /// The docs root is not a relative path inside the repo.
    DocsRoot(DocsRootError),
}

impl InitError {
    pub fn message(&self) -> (r: String)
        ensures
            match self {
                InitError::NoStore => r@ == "cannot resolve the engrym store (set $HOME or $ENGRYM_HOME)"@,
                InitError::AlreadyInitialized { path } => r@ == path@
                    + " already exists — this repo is already initialized (use --force to re-scaffold)"@,
                InitError::DocsRoot(DocsRootError::NotRelative { got }) => r@
                    == "docs directory must be a relative path inside the repo (got `"@ + got@ + "`)"@,
            },
    {
        match self {
            InitError::NoStore => "cannot resolve the engrym store (set $HOME or $ENGRYM_HOME)".to_owned(),
            InitError::AlreadyInitialized { path } => {
                let mut out: Vec<char> = Vec::new();
                push_str(&mut out, path.as_str());
                push_str(&mut out, " already exists — this repo is already initialized (use --force to re-scaffold)");
                string_of(&out)
            },
            InitError::DocsRoot(e) => e.message(),
        }
    }
}

/// Where `init` puts the KB.
pub struct InitPlan {
    /// Where the configuration, docs and index live.
    pub state_dir: String,
    /// The repo a store outside it is bound to.
    pub source_anchor: Option<String>,
    /// Whether skills go to a repo-free location.
    pub skills_local: bool,
    /// Whether the checkout reuses an existing store.
    pub linked: bool,
}

/// Decide where the KB lives: an existing store this checkout was linked to,
/// a fresh local store (`local_dir`, unknown when the store root is), or the
/// repo itself.
pub fn init_plan(args: &InitArgs, anchor: &str, linked_dir: Option<String>, local_dir: Option<String>)
    -> (r: Result<InitPlan, InitError>)
    ensures
        match linked_dir {
            Some(d) => r matches Ok(p) && p.state_dir@ == d@ && p.linked && p.skills_local
                && opt_seq(p.source_anchor) == Some(anchor@),
            None => if args.local {
                match local_dir {
                    Some(d) => r matches Ok(p) && p.state_dir@ == d@ && !p.linked && p.skills_local
                        && opt_seq(p.source_anchor) == Some(anchor@),
                    None => r matches Err(InitError::NoStore),
                }
            } else {
                r matches Ok(p) && p.state_dir@ == args.root@ && !p.linked && !p.skills_local
                    && p.source_anchor is None
            },
        },
{
    match linked_dir {
        Some(d) => Ok(InitPlan { state_dir: d, source_anchor: Some(anchor.to_owned()), skills_local: true, linked: true }),
        None => if args.local {
            match local_dir {
                Some(d) => Ok(InitPlan { state_dir: d, source_anchor: Some(anchor.to_owned()), skills_local: true, linked: false }),
                None => Err(InitError::NoStore),
            }
        } else {
            Ok(InitPlan { state_dir: args.root.clone(), source_anchor: None, skills_local: false, linked: false })
        },
    }
}

/// Refuse to scaffold over an existing configuration unless forced.
pub fn check_scaffold(config_path: &str, exists: bool, force: bool) -> (r: Result<(), InitError>)
    ensures
        exists && !force ==> (r matches Err(InitError::AlreadyInitialized { path }) && path@ == config_path@),
        !(exists && !force) ==> r is Ok,
{
    if exists && !force {
        Err(InitError::AlreadyInitialized { path: config_path.to_owned() })
    } else {
        Ok(())
    }
}

// ---------------------------------------------------------------------------
// reset and deinit
// ---------------------------------------------------------------------------

/// What a destructive command does next.
#[derive(PartialEq, Eq, Structural)]
pub enum Step {
    /// Nothing to delete.
    Nothing,
    /// Ask on the terminal first.
    Confirm,
    /// Go ahead.
    Proceed,
}

/// Why `reset` or `deinit` refuses.
pub enum WipeError {
    /// The docs root is the state root itself.
    DocsIsRoot { root: String, deinit: bool },
    /// No `--yes` and no terminal to ask on.
    Unconfirmed { docs: usize, deinit: bool },
}

impl WipeError {
    pub fn message(&self) -> (r: String)
        ensures
            match self {
                WipeError::DocsIsRoot { root, deinit } => r@ == "docs root resolves to the "@
                    + (if *deinit { "repo"@ } else { "state"@ }) + " root ("@ + root@
                    + ") — refusing to delete it; check `docs.root` in engrym.toml"@,
                WipeError::Unconfirmed { docs, deinit } => r@ == if *deinit {
                    "refusing to remove engrym ("@ + decimal(*docs as nat)
                        + " doc(s) and more) without confirmation — pass --yes"@
                } else {
                    "refusing to delete "@ + decimal(*docs as nat)
                        + " doc(s) and the index without confirmation — pass --yes"@
                },
            },
    {
        let mut out: Vec<char> = Vec::new();
        match self {
            WipeError::DocsIsRoot { root, deinit } => {
                push_str(&mut out, "docs root resolves to the ");
                push_str(&mut out, if *deinit { "repo" } else { "state" });
                push_str(&mut out, " root (");
                push_str(&mut out, root.as_str());
                push_str(&mut out, ") — refusing to delete it; check `docs.root` in engrym.toml");
            },
            WipeError::Unconfirmed { docs, deinit } => {
                let n = usize_to_string(*docs);
                if *deinit {
                    push_str(&mut out, "refusing to remove engrym (");
                    push_str(&mut out, n.as_str());
                    push_str(&mut out, " doc(s) and more) without confirmation — pass --yes");
                } else {
                    push_str(&mut out, "refusing to delete ");
                    push_str(&mut out, n.as_str());
                    push_str(&mut out, " doc(s) and the index without confirmation — pass --yes");
                }
            },
        }
        string_of(&out)
    }
}

/// The confirmation rule both destructive commands share: without `--yes`,
/// ask when there is a terminal, refuse when there is none.
pub open spec fn confirmed_step(yes: bool, interactive: bool) -> Option<Step> {
    if yes {
        Some(Step::Proceed)
    } else if interactive {
        Some(Step::Confirm)
    } else {
        None
    }
}

/// Decide what `reset` does. It never deletes the state root (`docs_is_root`:
/// the docs root exists and resolves to it), does nothing when there are
/// neither docs nor an index, and otherwise needs confirmation.
pub fn reset_decision(
    root: &str,
    docs_is_root: bool,
    docs_exists: bool,
    index_exists: bool,
    doc_count: usize,
    yes: bool,
    interactive: bool,
) -> (r: Result<Step, WipeError>)
    ensures
        docs_is_root ==> (r matches Err(WipeError::DocsIsRoot { root: x, deinit }) && x@ == root@ && !deinit),
        !docs_is_root && !docs_exists && !index_exists ==> r == Ok::<Step, WipeError>(Step::Nothing),
        !docs_is_root && (docs_exists || index_exists) ==> match confirmed_step(yes, interactive) {
            Some(st) => r == Ok::<Step, WipeError>(st),
            None => r matches Err(WipeError::Unconfirmed { docs, deinit }) && docs == doc_count && !deinit,
        },
{
    if docs_is_root {
        return Err(WipeError::DocsIsRoot { root: root.to_owned(), deinit: false });
    }
    if !docs_exists && !index_exists {
        return Ok(Step::Nothing);
    }
    if yes {
        Ok(Step::Proceed)
    } else if interactive {
        Ok(Step::Confirm)
    } else {
        Err(WipeError::Unconfirmed { docs: doc_count, deinit: false })
    }
}

/// Decide what `deinit` does once its operations are planned (`nothing`: no
/// operation was found). `docs_is_root` is checked first, as for `reset`.
pub fn deinit_decision(
    root: &str,
    docs_is_root: bool,
    nothing: bool,
    docs_deleted: usize,
    yes: bool,
    interactive: bool,
) -> (r: Result<Step, WipeError>)
    ensures
        docs_is_root ==> (r matches Err(WipeError::DocsIsRoot { root: x, deinit }) && x@ == root@ && deinit),
        !docs_is_root && nothing ==> r == Ok::<Step, WipeError>(Step::Nothing),
        !docs_is_root && !nothing ==> match confirmed_step(yes, interactive) {
            Some(st) => r == Ok::<Step, WipeError>(st),
            None => r matches Err(WipeError::Unconfirmed { docs, deinit }) && docs == docs_deleted && deinit,
        },
{
    if docs_is_root {
        return Err(WipeError::DocsIsRoot { root: root.to_owned(), deinit: true });
    }
    if nothing {
        return Ok(Step::Nothing);
    }
    if yes {
        Ok(Step::Proceed)
    } else if interactive {
        Ok(Step::Confirm)
    } else {
        Err(WipeError::Unconfirmed { docs: docs_deleted, deinit: true })
    }
}


// ---------------------------------------------------------------------------
// deinit's operations
// ---------------------------------------------------------------------------

/// One thing `deinit` removes.
pub enum DeinitOp {
    RemoveDir(String),
    RemoveFile(String),
    /// Strip engrym's lines from this `.gitignore`.
    CleanGitignore(String),
    /// Remove the repo from this agent's memory (by binary name).
    RemoveMemory(String),
}

impl View for DeinitOp {
    /// The operation's kind (0 to 3, in declaration order) and its path or name.
    type V = (nat, Seq<char>);

    open spec fn view(&self) -> (nat, Seq<char>) {
        match self {
            DeinitOp::RemoveDir(p) => (0, p@),
            DeinitOp::RemoveFile(p) => (1, p@),
            DeinitOp::CleanGitignore(p) => (2, p@),
            DeinitOp::RemoveMemory(b) => (3, b@),
        }
    }
}

/// The views of a list of operations.
pub open spec fn op_views(v: Seq<DeinitOp>) -> Seq<(nat, Seq<char>)> {
    v.map_values(|o: DeinitOp| o@)
}

/// What `deinit` found of a KB.
pub struct KbFootprint {
    /// Whether the KB is stored outside the repo.
    pub local: bool,
    /// The state root: the external store, or the repo.
    pub store: String,
    pub docs_root: String,
    pub docs_exists: bool,
    pub index_exists: bool,
    /// Whether the repo's `.gitignore` ignores the index.
    pub gitignore_has: bool,
}

/// The operations that remove a KB: the whole store when it is local; else
/// the configuration, the docs and the index when present, and the ignore
/// entry when there is one.
pub open spec fn kb_ops(kb: KbFootprint) -> Seq<(nat, Seq<char>)> {
    if kb.local {
        seq![(0nat, kb.store@)]
    } else {
        seq![(1nat, join_path(kb.store@, CONFIG_FILENAME@))]
            + (if kb.docs_exists { seq![(0nat, kb.docs_root@)] } else { Seq::empty() })
            + (if kb.index_exists { seq![(0nat, join_path(kb.store@, INDEX_DIR@))] } else { Seq::empty() })
            + (if kb.gitignore_has { seq![(2nat, join_path(kb.store@, ".gitignore"@))] } else { Seq::empty() })
    }
}

/// Everything `deinit` removes, in order: the KB, the project-level skill
/// directories found, then the memory entries found.
pub open spec fn deinit_ops_spec(kb: Option<KbFootprint>, skill_dirs: Seq<Seq<char>>, memory: Seq<Seq<char>>)
    -> Seq<(nat, Seq<char>)>
{
    (match kb {
        Some(k) => kb_ops(k),
        None => Seq::empty(),
    }) + skill_dirs.map_values(|d: Seq<char>| (0nat, d)) + memory.map_values(|b: Seq<char>| (3nat, b))
}

/// Append one operation per string, all of one kind.
fn push_ops(out: &mut Vec<DeinitOp>, items: &Vec<String>, dir: bool)
    ensures
        op_views(final(out)@) == op_views(old(out)@)
            + str_views(items@).map_values(|d: Seq<char>| (if dir { 0nat } else { 3nat }, d)),
{
    let ghost start = op_views(out@);
    let mut i: usize = 0;
    while i < items.len()
        invariant
            i <= items@.len(),
            op_views(out@) == start
                + str_views(items@).take(i as int).map_values(|d: Seq<char>| (if dir { 0nat } else { 3nat }, d)),
        decreases items@.len() - i,
    {
        let ghost before = op_views(out@);
        let x = items[i].clone();
        if dir {
            out.push(DeinitOp::RemoveDir(x));
        } else {
            out.push(DeinitOp::RemoveMemory(x));
        }
        proof {
            assert(op_views(out@) =~= before.push((if dir { 0nat } else { 3nat }, items@[i as int]@)));
            assert(str_views(items@).take(i + 1).map_values(|d: Seq<char>| (if dir { 0nat } else { 3nat }, d))
                =~= str_views(items@).take(i as int).map_values(|d: Seq<char>| (if dir { 0nat } else { 3nat }, d))
                    .push((if dir { 0nat } else { 3nat }, items@[i as int]@)));
        }
        i += 1;
    }
    proof {
        assert(str_views(items@).take(items@.len() as int) =~= str_views(items@));
    }
}

/// Plan `deinit`: `skill_dirs` are the project-level skill directories that
/// exist, `memory_agents` the agents whose memory lists the repo.
pub fn deinit_ops(kb: Option<&KbFootprint>, skill_dirs: &Vec<String>, memory_agents: &Vec<String>)
    -> (r: Vec<DeinitOp>)
    ensures
        op_views(r@) == deinit_ops_spec(
            match kb { Some(k) => Some(*k), None => None },
            str_views(skill_dirs@),
            str_views(memory_agents@),
        ),
{
    let mut out: Vec<DeinitOp> = Vec::new();
    match kb {
        Some(k) => {
            if k.local {
                out.push(DeinitOp::RemoveDir(k.store.clone()));
            } else {
                out.push(DeinitOp::RemoveFile(join_path_exec(k.store.as_str(), CONFIG_FILENAME)));
                if k.docs_exists {
                    out.push(DeinitOp::RemoveDir(k.docs_root.clone()));
                }
                if k.index_exists {
                    out.push(DeinitOp::RemoveDir(join_path_exec(k.store.as_str(), INDEX_DIR)));
                }
                if k.gitignore_has {
                    out.push(DeinitOp::CleanGitignore(join_path_exec(k.store.as_str(), ".gitignore")));
                }
            }
            proof {
                assert(op_views(out@) =~= kb_ops(*k));
            }
        },
        None => {
            assert(op_views(out@) =~= Seq::<(nat, Seq<char>)>::empty());
        },
    }
    push_ops(&mut out, skill_dirs, true);
    push_ops(&mut out, memory_agents, false);
    out
}

/// The project-level skill directories under `start`, agent by agent in
/// table order: for each agent whose in-repo skills live in the repo, the
/// directory of each skill.
pub open spec fn project_skill_dirs_spec(rows: Seq<AgentRow>, start: Seq<char>) -> Seq<Seq<char>>
    decreases rows.len(),
{
    if rows.len() == 0 {
        Seq::empty()
    } else {
        let prev = project_skill_dirs_spec(rows.drop_last(), start);
        match rows.last().3 {
            Some((false, p)) => prev + seq![
                join_path(join_path(start, p), BOOTSTRAP_SKILL@),
                join_path(join_path(start, p), WORKING_SKILL@),
            ],
            _ => prev,
        }
    }
}

/// Where project-level skills would be under `start` (the caller keeps those
/// that exist).
pub fn project_skill_dirs(start: &str) -> (r: Vec<String>)
    ensures
        str_views(r@) == project_skill_dirs_spec(agent_table(), start@),
{
    let agents = known_agents();
    let mut out: Vec<String> = Vec::new();
    let mut i: usize = 0;
    proof {
        assert(agent_rows(agents@).take(0) =~= Seq::<AgentRow>::empty());
    }
    while i < agents.len()
        invariant
            i <= agents@.len(),
            agent_rows(agents@) == agent_table(),
            str_views(out@) == project_skill_dirs_spec(agent_rows(agents@).take(i as int), start@),
        decreases agents@.len() - i,
    {
        let ghost t = agent_rows(agents@).take(i + 1);
        proof {
            assert(t.drop_last() =~= agent_rows(agents@).take(i as int));
            assert(t.last() == agents@[i as int]@);
        }
        match &agents[i].skills {
            Some(SkillLoc::Project(p)) => {
                let base = join_path_exec(start, p.as_str());
                let ghost before = str_views(out@);
                out.push(join_path_exec(base.as_str(), BOOTSTRAP_SKILL));
                out.push(join_path_exec(base.as_str(), WORKING_SKILL));
                proof {
                    assert(str_views(out@) =~= before + seq![
                        join_path(join_path(start@, p@), BOOTSTRAP_SKILL@),
                        join_path(join_path(start@, p@), WORKING_SKILL@),
                    ]);
                }
            },
            _ => {},
        }
        i += 1;
    }
    proof {
        assert(agent_rows(agents@).take(agents@.len() as int) =~= agent_rows(agents@));
    }
    out
}


/// After `init` updates a `.gitignore`, the index is ignored: the new text
/// ignores it, and no update is made only when the file already did.
pub proof fn lemma_gitignore_update_ignores(current: Option<Seq<char>>)
    ensures
        match gitignore_update_spec(current) {
            Some(t) => has_index_entry(t),
            None => current is Some && has_index_entry(current->0),
        },
{
    reveal_strlit(".engrym/");
    reveal_strlit("# engrym derived index (rebuildable)");
    reveal_strlit("\n");
    reveal_strlit("");
    let x = GITIGNORE_ENTRY@;
    assert(no_char(x, '\n')) by {
        assert forall|i: int| 0 <= i < x.len() implies x[i] != '\n' by {}
    }
    assert(trim(x) == x) by {
        lemma_trim_fixed(x);
    }
    let q = match current {
        None => GITIGNORE_COMMENT@ + "\n"@,
        Some(c) => if c.len() == 0 || c.last() == '\n' {
            c + ""@ + "\n"@ + GITIGNORE_COMMENT@ + "\n"@
        } else {
            c + "\n"@ + "\n"@ + GITIGNORE_COMMENT@ + "\n"@
        },
    };
    match gitignore_update_spec(current) {
        Some(t) => {
            assert(t =~= q + x + seq!['\n']);
            lemma_lines_tail(q, x);
            let j = choose|j: int| 0 <= j < lines(t).len() && lines(t)[j] == x;
            assert(is_index_entry(lines(t)[j]));
        },
        None => {},
    }
}


/// `deinit` undoes what `init` wrote into a repo without a `.gitignore`: the
/// file `init` creates is removed again.
pub proof fn lemma_clean_removes_created_gitignore()
    ensures
        gitignore_update_spec(None) matches Some(t) && cleaned_gitignore(t) is None,
{
    reveal_strlit(".engrym/");
    reveal_strlit("# engrym derived index (rebuildable)");
    reveal_strlit("\n");
    let c = GITIGNORE_COMMENT@;
    let e = GITIGNORE_ENTRY@;
    let t = c + "\n"@ + e + "\n"@;
    assert(no_char(c, '\n')) by {
        assert forall|i: int| 0 <= i < c.len() implies c[i] != '\n' by {}
    }
    assert(no_char(e, '\n')) by {
        assert forall|i: int| 0 <= i < e.len() implies e[i] != '\n' by {}
    }
    assert(t =~= c + seq!['\n'] + (e + seq!['\n']));
    lemma_lines_cons(c, e + seq!['\n']);
    assert(e + seq!['\n'] =~= e + seq!['\n'] + Seq::<char>::empty());
    lemma_lines_cons(e, Seq::<char>::empty());
    assert(lines(t) =~= seq![c, e]);
    lemma_trim_fixed(c);
    lemma_trim_fixed(e);
    let l2 = seq![c, e];
    let l1 = seq![c];
    assert(!keep_ignore_line(e));
    assert(!keep_ignore_line(c));
    assert(l2.last() == e);
    assert(l2.drop_last() =~= l1);
    assert(l1.last() == c);
    assert(l1.drop_last() =~= Seq::<Seq<char>>::empty());
    assert(kept_lines(l1) == kept_lines(Seq::<Seq<char>>::empty()));
    assert(kept_lines(l2) == kept_lines(l1));
    assert(kept_lines(l2) =~= Seq::<Seq<char>>::empty());
}


/// The lines `deinit` keeps after three more lines: a blank one, the comment
/// and the entry.
proof fn lemma_kept_after_block(ls: Seq<Seq<char>>)
    ensures
        kept_lines(ls + seq![""@, GITIGNORE_COMMENT@, GITIGNORE_ENTRY@]) == kept_lines(ls).push(""@),
{
    reveal_strlit(".engrym/");
    reveal_strlit("# engrym derived index (rebuildable)");
    reveal_strlit("");
    let c = GITIGNORE_COMMENT@;
    let e = GITIGNORE_ENTRY@;
    lemma_trim_fixed(c);
    lemma_trim_fixed(e);
    let x3 = ls + seq![""@, c, e];
    let x2 = ls + seq![""@, c];
    let x1 = ls + seq![""@];
    assert(x3.drop_last() =~= x2);
    assert(x2.drop_last() =~= x1);
    assert(x1.drop_last() =~= ls);
    assert(trim(""@) =~= ""@);
    assert(keep_ignore_line(""@));
    assert(!keep_ignore_line(c));
    assert(!keep_ignore_line(e));
    assert(kept_lines(x3) == kept_lines(x2));
    assert(kept_lines(x2) == kept_lines(x1));
}

/// Joining with one more, empty, part adds at most a line break.
proof fn lemma_join_blank_tail(ks: Seq<Seq<char>>)
    ensures
        trim_end(join(ks.push(""@), "\n"@)) == trim_end(join(ks, "\n"@)),
{
    reveal_strlit("");
    reveal_strlit("\n");
    let j = join(ks.push(""@), "\n"@);
    assert(ks.push(""@).drop_last() =~= ks);
    if ks.len() == 0 {
        assert(j =~= ""@);
        assert(join(ks, "\n"@) =~= Seq::<char>::empty());
    } else {
        assert(j =~= join(ks, "\n"@) + "\n"@ + ""@);
        assert(j.drop_last() =~= join(ks, "\n"@));
    }
}

/// `deinit` after `init` leaves an existing `.gitignore` as `deinit` alone
/// would: the lines `init` appended make no difference to the cleanup.
pub proof fn lemma_clean_ignores_update(current: Seq<char>)
    requires
        !has_index_entry(current),
    ensures
        gitignore_update_spec(Some(current)) matches Some(u)
            && cleaned_gitignore(u) == cleaned_gitignore(current),
{
    reveal_strlit(".engrym/");
    reveal_strlit("# engrym derived index (rebuildable)");
    reveal_strlit("\n");
    reveal_strlit("");
    let c = GITIGNORE_COMMENT@;
    let e = GITIGNORE_ENTRY@;
    assert(no_char(c, '\n')) by {
        assert forall|i: int| 0 <= i < c.len() implies c[i] != '\n' by {}
    }
    assert(no_char(e, '\n')) by {
        assert forall|i: int| 0 <= i < e.len() implies e[i] != '\n' by {}
    }
    let tail = seq!['\n'] + c + seq!['\n'] + e + seq!['\n'];
    assert(tail =~= Seq::<char>::empty() + seq!['\n'] + (c + seq!['\n'] + (e + seq!['\n'] + Seq::<char>::empty())));
    lemma_lines_cons(Seq::<char>::empty(), c + seq!['\n'] + (e + seq!['\n'] + Seq::<char>::empty()));
    lemma_lines_cons(c, e + seq!['\n'] + Seq::<char>::empty());
    lemma_lines_cons(e, Seq::<char>::empty());
    assert(strip_cr(Seq::<char>::empty()) =~= ""@);
    assert(strip_cr(c) == c);
    assert(strip_cr(e) == e);
    assert(lines(tail) =~= seq![""@, c, e]);
    let p = if current.len() == 0 || current.last() == '\n' { current } else { current + seq!['\n'] };
    let u = p + tail;
    assert(gitignore_update_spec(Some(current)) == Some(u)) by {
        if current.len() == 0 || current.last() == '\n' {
            assert(current + ignore_block(""@) =~= u);
        } else {
            assert(current + ignore_block("\n"@) =~= u);
        }
    }
    lemma_lines_append(p, tail);
    lemma_kept_after_block(lines(p));
    let kp = kept_lines(lines(p));
    let kc = kept_lines(lines(current));
    let ju = join(kept_lines(lines(u)), "\n"@);
    let jc = join(kc, "\n"@);
    assert(lines(u) == lines(p) + seq![""@, c, e]);
    lemma_join_blank_tail(kp);
    assert(trim_end(ju) == trim_end(join(kp, "\n"@)));
    if !(current.len() == 0 || current.last() == '\n') {
        lemma_lines_newline(current);
        let lc = lines(current);
        let l = lc.last();
        let l2 = strip_cr(l);
        let l0 = lc.drop_last();
        let lp = lines(p);
        assert(lp == l0.push(l2));
        assert(lp.drop_last() =~= l0);
        assert(lp.last() == l2);
        if l2 != l {
            assert(l.last() == '\r');
            lemma_trim_drop_space(l);
            assert(keep_ignore_line(l2) == keep_ignore_line(l));
            let k0 = kept_lines(l0);
            if keep_ignore_line(l) {
                assert(kc == k0.push(l));
                assert(kp == k0.push(l2));
                assert(k0.push(l).drop_last() =~= k0);
                assert(k0.push(l2).drop_last() =~= k0);
                let x = if k0.len() == 0 { Seq::<char>::empty() } else { join(k0, "\n"@) + "\n"@ };
                assert(jc =~= x + l);
                assert(join(kp, "\n"@) =~= x + l2);
                assert(jc =~= (x + l2).push('\r'));
                assert(jc.drop_last() =~= x + l2);
                assert(trim_end(jc) == trim_end(x + l2));
            } else {
                assert(kc == k0);
                assert(kp == k0);
            }
        } else {
            assert(lp =~= lc);
        }
    }
    assert(trim_end(ju) == trim_end(jc));
    lemma_blank_trim(ju);
    lemma_blank_trim(jc);
}

} // verus!
