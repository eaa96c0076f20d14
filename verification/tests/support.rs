use engrym::workspace::{survey_root, where_mode};
use engrym::browse::{crumb_prefixes, topics_panel};
use engrym::config::{
    basename, Config, DaemonConfig, DocsConfig, EmbeddingConfig, LintConfig, SearchConfig,
};
use engrym::daemon::{handle_request, idle_expired, stop, watchdog_tick, Outcome, Reply};
use engrym::lifecycle::project_skill_dirs;
use engrym::registry::Registry;
use engrym::workspace::{effective_reach, fallback_root, is_hidden, keep_sibling, visit, Visit};

fn config(root: &str, source: Option<&str>) -> Config {
    Config {
        docs: DocsConfig::default(),
        embedding: EmbeddingConfig::default(),
        search: SearchConfig::default(),
        lint: LintConfig::default(),
        daemon: DaemonConfig::default(),
        repo_root: root.to_string(),
        source_repo: source.map(|s| s.to_string()),
    }
}

#[test]
fn discovery_prefers_the_in_repo_kb() {
    let c = Config::discover(Some(config("/w/repo", None)), Some(config("/w/store", Some("/w/repo"))), "/w/repo")
        .ok()
        .unwrap();
    assert_eq!(c.repo_root, "/w/repo");
    let c = Config::discover(None, Some(config("/w/store", Some("/w/repo"))), "/w/repo").ok().unwrap();
    assert_eq!(c.repo(), "/w/repo");
    assert!(c.is_local());
    let e = Config::discover(None, None, "/w/repo").err().unwrap();
    assert!(e.contains("no engrym.toml found in /w/repo"), "{e}");
    assert!(e.contains("engrym init --local"), "{e}");
}

#[test]
fn paths_and_names_of_a_kb() {
    let c = config("/w/repo", None);
    assert_eq!(c.docs_root(), "/w/repo/docs");
    assert_eq!(c.index_path(), "/w/repo/.engrym/index.db");
    assert_eq!(c.socket_path(), "/w/repo/.engrym/engrym.sock");
    assert!(c.daemon_enabled(false));
    assert!(!c.daemon_enabled(true));
    assert_eq!(basename("/w/org-a/api"), "api");
    assert_eq!(basename("/"), "repo");
}

#[test]
fn depth_implies_all_and_is_capped() {
    assert_eq!(effective_reach(false, 1), (false, 1));
    assert_eq!(effective_reach(false, 2), (true, 2));
    assert_eq!(effective_reach(true, 9), (true, 5));
}

#[test]
fn project_skills_are_found_under_the_repo() {
    let dirs = project_skill_dirs("/w/repo");
    assert_eq!(
        dirs,
        vec![
            "/w/repo/.opencode/skills/engrym-bootstrap".to_string(),
            "/w/repo/.opencode/skills/engrym".to_string(),
        ]
    );
}

#[test]
fn daemon_answers_each_operation() {
    let (r, o) = handle_request("ping", None, None, "m");
    assert!(matches!(r, Reply::Done) && o == Outcome::Continue);
    let (r, o) = handle_request("shutdown", None, None, "m");
    assert!(matches!(r, Reply::Done) && o == Outcome::Shutdown);
    let (r, o) = handle_request("embed", Some("m"), Some("auth"), "m");
    assert!(matches!(r, Reply::Embed { ref query } if query == "auth") && o == Outcome::Continue);
    let (r, o) = handle_request("embed", Some("other"), Some("auth"), "m");
    assert!(matches!(r, Reply::Error { ref message } if message == "model mismatch") && o == Outcome::Shutdown);
    let (r, o) = handle_request("dance", None, None, "m");
    assert!(matches!(r, Reply::Error { ref message } if message == "unknown op `dance`") && o == Outcome::Continue);
    assert_eq!(watchdog_tick(300), 30);
    assert_eq!(watchdog_tick(2), 1);
    assert_eq!(watchdog_tick(40), 10);
    assert!(idle_expired(300, 300) && !idle_expired(10, 300));
    assert_eq!(stop(false, false), (false, false));
    assert_eq!(stop(true, true), (true, false));
    assert_eq!(stop(true, false), (false, true));
}

#[test]
fn registry_learns_once_and_reports_sharing() {
    let mut reg = Registry::default();
    assert!(reg.learn("/w/a", "k", Some("github.com/o/r".to_string())));
    assert!(!reg.learn("/w/a", "k", Some("github.com/o/r".to_string())));
    assert!(!reg.is_shared("k"));
    assert!(reg.link("/w/b", "k", None));
    assert!(reg.is_shared("k"));
    let views = reg.store_views(&vec!["z".to_string(), "k".to_string()]);
    assert_eq!(views.len(), 2);
    assert_eq!(views[0].key, "k");
    assert_eq!(views[0].identity.as_deref(), Some("github.com/o/r"));
    assert_eq!(views[0].anchors, vec!["/w/a".to_string(), "/w/b".to_string()]);
    assert_eq!(views[1].key, "z");
    assert!(views[1].identity.is_none() && views[1].anchors.is_empty());
}

#[test]
fn topics_panel_links_each_prefix_with_its_count() {
    assert_eq!(crumb_prefixes("core/auth"), vec!["core".to_string(), "core/auth".to_string()]);
    let html = topics_panel(&vec!["core/auth".to_string()], &vec![vec![2, 1]]);
    assert_eq!(
        html,
        "<div class=panel><h4>Topics</h4><div class=crumb><a href=\"/topic/core\">core</a><span class=tcount>2</span>\
<span class=sep>/</span><a href=\"/topic/core/auth\">auth</a><span class=tcount>1</span></div></div>"
    );
    assert_eq!(topics_panel(&vec![], &vec![]), "");
}

#[test]
fn the_scan_never_enters_a_checkout_and_skips_hidden_folders() {
    assert!(is_hidden("/w/.cache"));
    assert!(!is_hidden("/w/api"));
    assert!(!is_hidden("/"));
    // A KB makes a member, wherever it is found.
    assert_eq!(visit(true, true, 3), Visit::Member);
    // A checkout without a KB is never entered, however deep the scan may go.
    assert_eq!(visit(false, true, 5), Visit::Skip);
    // An org folder is entered while depth remains.
    assert_eq!(visit(false, false, 2), Visit::Descend);
    assert_eq!(visit(false, false, 1), Visit::Skip);
}

#[test]
fn a_repo_without_a_kb_looks_beside_itself_but_not_at_its_own_clones() {
    assert_eq!(fallback_root("/w/api", Some("/w")).as_deref(), Some("/w"));
    assert_eq!(fallback_root("/w", Some("/w")), None);
    assert_eq!(fallback_root("/", None), None);
    assert!(!keep_sibling(Some("github.com/org/api"), Some("github.com/org/api")));
    assert!(keep_sibling(Some("github.com/org/api"), Some("github.com/org/web")));
    assert!(keep_sibling(None, Some("github.com/org/web")));
}

#[test]
fn a_workspace_is_surveyed_from_the_folder_holding_the_repo() {
    assert_eq!(survey_root("/w/org/api"), "/w/org");
    assert_eq!(survey_root("/w/org/api/"), "/w/org");
    assert_eq!(survey_root("/api"), "/");
    assert_eq!(survey_root("api"), "api");
    assert_eq!(where_mode(Some(true), 0), Some("local"));
    assert_eq!(where_mode(Some(false), 3), Some("in-repo"));
    assert_eq!(where_mode(None, 2), Some("workspace"));
    assert_eq!(where_mode(None, 0), None);
}
