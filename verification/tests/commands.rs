use engrym::author::new_check;
use engrym::index::{pair_vectors, plan_embedding};
use engrym::parse::content_hash;
use engrym::author::{apply_set, inbound_referrers, relocation_moves, rm_check, SetArgs};
use engrym::config::{Config, DaemonConfig, DocsConfig, EmbeddingConfig, Layout, LintConfig, SearchConfig};
use engrym::index::{edges_of, index_step, topic_depth, validate};
use engrym::install::{run, run_uninstall, InstallArgs, Plan, Target, UninstallArgs, UninstallTarget};
use engrym::lifecycle::{
    check_scaffold, clean_gitignore, config_text, custom_launch, deinit_decision, deinit_ops,
    docs_root_choice, gitignore_has_entry, gitignore_update, init_plan, local_config,
    reset_decision, resolve_prompt_args, valid_docs_root, DeinitOp, InitArgs, KbFootprint, Step,
    BOOTSTRAP_PROMPT,
};
use engrym::lint::lint_docs;
use engrym::model::{Frontmatter, Relation};
use engrym::parse::{render_doc, split_doc, ParsedDoc};
use engrym::search::{build_match, pool_size, rankers, select_hits, snippet, Mode};
use engrym::workspace::{collect, Collector, Workspace};

fn doc(id: &str, altitude: i64, topic: &str, relations: &[(&str, &str)], body: &str) -> ParsedDoc {
    let fm = Frontmatter {
        id: Some(id.to_string()),
        title: Some(id.to_string()),
        altitude: Some(altitude),
        topics: vec![topic.to_string()],
        relations: relations
            .iter()
            .map(|(t, d)| Relation { edge_type: t.to_string(), target: d.to_string() })
            .collect(),
        summary: None,
    };
    let raw = render_doc(&format!("id: {id}\n"), body);
    let split = split_doc(&raw).expect("rendered document splits");
    ParsedDoc::new(fm, split, format!("{id}.md"))
}

fn seed() -> Vec<ParsedDoc> {
    vec![
        doc("overview", 0, "core", &[], "# Overview\nThe entry point is main.rs."),
        doc("auth", 1, "core/auth", &[("refines", "overview")], "# Auth\nSessions use OAuth token refresh."),
    ]
}

fn config(root: &str) -> Config {
    Config {
        docs: DocsConfig::default(),
        embedding: EmbeddingConfig::default(),
        search: SearchConfig::default(),
        lint: LintConfig::default(),
        daemon: DaemonConfig::default(),
        repo_root: root.to_string(),
        source_repo: None,
    }
}

fn skills_args(agent: &str, local: bool) -> InstallArgs {
    InstallArgs {
        root: "/w/repo".to_string(),
        target: Target::Skills { agent: Some(agent.to_string()), local, refresh: false },
        json: false,
    }
}

#[test]
fn init_refuses_when_already_initialized() {
    let err = check_scaffold("/w/repo/engrym.toml", true, false).unwrap_err();
    assert!(err.message().contains("already"), "{}", err.message());
}

#[test]
fn init_force_rescaffolds() {
    assert!(check_scaffold("/w/repo/engrym.toml", true, true).is_ok());
    assert!(check_scaffold("/w/repo/engrym.toml", false, false).is_ok());
}

#[test]
fn init_docs_flag_rejects_unsafe_paths() {
    let e = docs_root_choice(Some(".."), None).unwrap_err();
    assert!(e.message().contains("relative path"), "{}", e.message());
    let e = docs_root_choice(Some("/etc"), None).unwrap_err();
    assert!(e.message().contains("relative path"), "{}", e.message());
}

#[test]
fn install_skills_opencode_local_uses_user_global_dir() {
    match run(&skills_args("opencode", true), false, Some("/w/home")).ok().unwrap() {
        Plan::WriteSkills { files, .. } => {
            assert!(files.iter().any(|f| f == "/w/home/.config/opencode/skills/engrym/SKILL.md"), "{files:?}");
            assert!(!files.iter().any(|f| f.starts_with("/w/repo/.opencode")), "{files:?}");
        }
        _ => panic!("expected skills to write"),
    }
}

#[test]
fn install_skills_unknown_agent_fails() {
    let e = run(&skills_args("nope", false), false, Some("/w/home")).err().unwrap();
    assert!(e.message().contains("unknown agent"), "{}", e.message());
}

#[test]
fn install_skills_for_cli_only_agent_fails() {
    let e = run(&skills_args("gemini", false), false, Some("/w/home")).err().unwrap();
    assert!(e.message().contains("no engrym skill"), "{}", e.message());
}

#[test]
fn install_memory_unknown_agent_fails() {
    let args = InstallArgs {
        root: "/w/repo".to_string(),
        target: Target::Memory { agent: Some("gemini".to_string()) },
        json: false,
    };
    let e = run(&args, false, Some("/w/home")).err().unwrap();
    assert!(e.message().contains("memory"), "{}", e.message());
}

#[test]
fn reset_requires_confirmation_without_yes() {
    let e = reset_decision("/w/repo", false, true, true, 2, false, false).err().unwrap();
    assert!(e.message().contains("--yes"), "{}", e.message());
    assert!(e.message().contains("2 doc(s)"), "{}", e.message());
    assert!(reset_decision("/w/repo", false, true, true, 2, true, false).ok() == Some(Step::Proceed));
}

#[test]
fn deinit_requires_confirmation_without_yes() {
    let e = deinit_decision("/w/repo", false, false, 2, false, false).err().unwrap();
    assert!(e.message().contains("--yes"), "{}", e.message());
    assert!(deinit_decision("/w/repo", false, false, 2, false, true).ok() == Some(Step::Confirm));
}

#[test]
fn related_shows_the_graph_neighborhood() {
    let docs = seed();
    let edges = edges_of(&docs[1]);
    assert!(edges.iter().any(|(t, d)| t == "refines" && d == "overview"), "{edges:?}");
    assert_eq!(inbound_referrers(&docs, "overview"), vec!["auth".to_string()]);
}

#[test]
fn show_prints_the_document() {
    let ws = Workspace::single(config("/w/repo"));
    let (i, id) = ws.resolve_doc("overview", &vec![false]).ok().unwrap();
    assert_eq!(i, 0);
    assert_eq!(id, "overview");
    assert!(seed()[0].body.contains("entry point"));
}

#[test]
fn lint_passes_on_a_valid_kb() {
    let report = lint_docs(&seed());
    assert!(report.passed(true), "{} errors, {} warnings", report.errors, report.warnings);
}

#[test]
fn lint_strict_fails_on_a_dangling_relation() {
    let mut docs = vec![doc("a", 1, "core", &[("depends_on", "ghost")], "# A")];
    assert!(!lint_docs(&docs).passed(true));
    docs.push(doc("ghost", 2, "core", &[], "# Ghost"));
    assert!(lint_docs(&docs).passed(true));
}

#[test]
fn set_adds_a_relation() {
    let fm = seed().remove(1).frontmatter;
    let args = SetArgs {
        id: "auth".to_string(),
        title: None,
        altitude: None,
        summary: None,
        add_topics: vec![],
        remove_topics: vec![],
        add_relations: vec!["depends_on:overview".to_string()],
        remove_relations: vec![],
        body_stdin: false,
    };
    let fm = apply_set(fm, &args).ok().unwrap();
    assert!(fm.relations.iter().any(|r| r.edge_type == "depends_on" && r.target == "overview"));
    assert!(fm.relations.iter().any(|r| r.edge_type == "refines" && r.target == "overview"));
}

#[test]
fn rm_refuses_when_referenced_then_succeeds_with_force() {
    let docs = seed();
    let inbound = inbound_referrers(&docs, "overview");
    assert!(rm_check("overview", inbound.clone(), false).is_err());
    assert!(rm_check("overview", inbound, true).is_ok());
}

#[test]
fn docs_root_is_cleaned_or_defaulted() {
    assert_eq!(valid_docs_root("  kb/ ").ok().unwrap(), "kb");
    assert_eq!(valid_docs_root("").ok().unwrap(), "docs");
    assert!(valid_docs_root(".").is_err());
    assert!(valid_docs_root("a/../b").is_err());
    assert_eq!(valid_docs_root("notes/kb").ok().unwrap(), "notes/kb");
}

#[test]
fn config_text_sets_the_docs_root() {
    let template = "# engrym\n[docs]\nroot = \"docs\"\nlayout = \"altitude\"\n";
    let out = config_text(template, "kb");
    assert!(out.contains("root = \"kb\""), "{out}");
    assert!(!out.contains("root = \"docs\""), "{out}");
}

#[test]
fn local_config_records_the_bound_repo() {
    let template = "# header\n[docs]\nroot = \"docs\"\n";
    let out = local_config(template, "/w/repo", "/w/home/.engrym/projects/repo-1");
    assert!(out.contains("# Bound to repo: /w/repo"), "{out}");
    assert!(out.contains("# Lives in:      /w/home/.engrym/projects/repo-1"), "{out}");
    assert!(out.ends_with("[docs]\nroot = \"docs\"\n"), "{out}");
    assert!(!out.contains("# header"), "{out}");
}

#[test]
fn gitignore_gets_the_index_entry_once() {
    let created = gitignore_update(None).unwrap();
    assert_eq!(created, "# engrym derived index (rebuildable)\n.engrym/\n");
    assert!(gitignore_has_entry(&created));
    assert!(gitignore_update(Some(&created)).is_none());
    let appended = gitignore_update(Some("target")).unwrap();
    assert_eq!(appended, "target\n\n# engrym derived index (rebuildable)\n.engrym/\n");
    assert_eq!(clean_gitignore(&appended), Some("target\n".to_string()));
    assert_eq!(clean_gitignore(&created), None);
}

#[test]
fn deinit_after_init_cleans_the_gitignore_as_before() {
    for body in ["target\r", "node_modules/\n*.log\n", "", "  \n", "a\n# engrym derived index (rebuildable)\nb"] {
        let updated = gitignore_update(Some(body)).unwrap();
        assert_eq!(clean_gitignore(&updated), clean_gitignore(body), "{body:?}");
    }
    assert_eq!(clean_gitignore("target\r"), Some("target\n".to_string()));
    assert_eq!(clean_gitignore("  \n"), None);
}

#[test]
fn prompt_is_substituted_into_launch_arguments() {
    let args = resolve_prompt_args(&vec!["run".to_string(), "{prompt}".to_string()]);
    assert_eq!(args, vec!["run".to_string(), BOOTSTRAP_PROMPT.to_string()]);
    let (prog, rest) = custom_launch("myagent chat").unwrap();
    assert_eq!(prog, "myagent");
    assert_eq!(rest, vec!["chat".to_string(), BOOTSTRAP_PROMPT.to_string()]);
    let (prog, rest) = custom_launch("agent --task={prompt}").unwrap();
    assert_eq!(prog, "agent");
    assert_eq!(rest, vec![format!("--task={BOOTSTRAP_PROMPT}")]);
    assert!(custom_launch("   ").is_none());
}

#[test]
fn init_plan_places_the_state() {
    let args = InitArgs {
        root: "/w/repo".to_string(),
        agent: None,
        agent_cmd: None,
        local: true,
        docs: None,
        force: false,
        json: true,
    };
    let p = init_plan(&args, "/w/repo", None, Some("/w/store".to_string())).ok().unwrap();
    assert_eq!(p.state_dir, "/w/store");
    assert_eq!(p.source_anchor.as_deref(), Some("/w/repo"));
    assert!(p.skills_local && !p.linked);
    assert!(init_plan(&args, "/w/repo", None, None).is_err());
}

#[test]
fn deinit_plans_an_in_repo_removal() {
    let kb = KbFootprint {
        local: false,
        store: "/w/repo".to_string(),
        docs_root: "/w/repo/docs".to_string(),
        docs_exists: true,
        index_exists: true,
        gitignore_has: true,
    };
    let ops = deinit_ops(Some(&kb), &vec![], &vec!["codex".to_string()]);
    assert_eq!(ops.len(), 5);
    assert!(matches!(&ops[0], DeinitOp::RemoveFile(p) if p == "/w/repo/engrym.toml"));
    assert!(matches!(&ops[2], DeinitOp::RemoveDir(p) if p == "/w/repo/.engrym"));
    assert!(matches!(&ops[3], DeinitOp::CleanGitignore(p) if p == "/w/repo/.gitignore"));
    assert!(matches!(&ops[4], DeinitOp::RemoveMemory(b) if b == "codex"));
}

#[test]
fn uninstall_skills_names_the_directories() {
    let args = UninstallArgs {
        root: "/w/repo".to_string(),
        target: UninstallTarget::Skills { agent: Some("codex".to_string()), local: false },
        json: false,
    };
    match run_uninstall(&args, false, Some("/w/home")).ok().unwrap() {
        Plan::RemoveSkills { dirs, .. } => {
            assert_eq!(dirs, vec![
                "/w/home/.codex/skills/engrym-bootstrap".to_string(),
                "/w/home/.codex/skills/engrym".to_string(),
            ]);
        }
        _ => panic!("expected directories to remove"),
    }
}

#[test]
fn search_builds_a_safe_match_and_snippet() {
    assert_eq!(build_match("OAuth2 token, refresh!"), "\"OAuth2\" \"token\" \"refresh\"");
    assert_eq!(build_match("snake_case"), "\"snake_case\"");
    assert_eq!(build_match("!!"), "\"\"");
    assert_eq!(snippet("  short  ", 220), "short");
    assert_eq!(snippet("abcdef ghij", 7), "abcdef…");
    assert_eq!(pool_size(3), 50);
    assert_eq!(pool_size(20), 100);
    assert_eq!(rankers(Mode::Semantic, false), (true, false, true));
    assert_eq!(rankers(Mode::Hybrid, true), (true, true, false));
}

#[test]
fn search_keeps_the_first_hits_at_the_altitude() {
    let alts = vec![Some(1), None, Some(0), Some(1), Some(1)];
    assert_eq!(select_hits(&alts, 2, Some(1)), vec![0, 3]);
    assert_eq!(select_hits(&alts, 10, None), vec![0, 2, 3, 4]);
}

#[test]
fn index_refuses_bad_and_duplicate_documents() {
    let mut d = doc("x", 5, "core", &[], "# X");
    let e = validate(&d, "x.md").err().unwrap();
    assert_eq!(e.message(), "x.md: altitude 5 out of range 0..=3");
    d.frontmatter.altitude = Some(1);
    d.frontmatter.topics.clear();
    assert_eq!(validate(&d, "x.md").err().unwrap().message(), "x.md: at least one topic is required");
    let mut seen = Vec::new();
    let a = doc("a", 0, "core", &[], "# A");
    assert!(index_step(&mut seen, &a, "a.md").is_ok());
    let e = index_step(&mut seen, &a, "b/a.md").err().unwrap();
    assert_eq!(e.message(), "duplicate id `a` in a.md and b/a.md");
    assert_eq!(topic_depth("core/auth/"), 2);
}

#[test]
fn workspace_names_members_uniquely() {
    let mut c = Collector::new("/w");
    c.add_config("/w/org-a/api", config("/w/org-a/api"));
    c.add_config("/w/api", config("/w/api"));
    c.add_config("/w/api-linked", config("/w/api"));
    let ms = c.finish();
    let names: Vec<&str> = ms.iter().map(|m| m.name.as_str()).collect();
    assert_eq!(names, vec!["api", "org-a/api"]);

    let found = vec![
        ("/elsewhere/api".to_string(), config("/elsewhere/api")),
        ("/other/api".to_string(), config("/other/api")),
    ];
    let ms = collect("/w", found, None);
    let names: Vec<&str> = ms.iter().map(|m| m.name.as_str()).collect();
    assert_eq!(names, vec!["api", "api-2"]);
}

#[test]
fn workspace_resolves_qualified_and_ambiguous_references() {
    let found = vec![
        ("/w/api".to_string(), config("/w/api")),
        ("/w/web".to_string(), config("/w/web")),
    ];
    let ws = Workspace::resolve(None, false, 1, "/w".to_string(), found).unwrap();
    assert_eq!(ws.names(), "api, web");
    let (i, id) = ws.resolve_doc("web:auth-overview", &vec![false, false]).ok().unwrap();
    assert_eq!((i, id.as_str()), (1, "auth-overview"));
    let e = ws.resolve_doc("auth-overview", &vec![true, true]).err().unwrap();
    assert!(e.message().contains("exists in 2 repos"), "{}", e.message());
    assert!(e.message().contains("api:auth-overview"), "{}", e.message());
    let e = ws.resolve_doc("org-b/api:svc-doc", &vec![false, false]).err().unwrap();
    assert!(e.message().contains("no repo `org-b/api`"), "{}", e.message());
    assert!(e.message().contains("try `--depth 2`"), "{}", e.message());
    let e = ws.only().err().unwrap();
    assert!(e.message().contains("works on one at a time"), "{}", e.message());
    assert!(Workspace::resolve(None, false, 1, "/w".to_string(), vec![]).is_none());
}

#[test]
fn install_skills_opencode() {
    match run(&skills_args("opencode", false), false, Some("/w/home")).ok().unwrap() {
        Plan::WriteSkills { agent, files } => {
            assert_eq!(agent.bin, "opencode");
            assert!(files.iter().any(|f| f == "/w/repo/.opencode/skills/engrym/SKILL.md"), "{files:?}");
            assert!(files.iter().any(|f| f == "/w/repo/.opencode/skills/engrym-bootstrap/SKILL.md"), "{files:?}");
        }
        _ => panic!("expected skills to write"),
    }
}

#[test]
fn deinit_on_a_clean_repo_is_a_noop() {
    let ops = deinit_ops(None, &vec![], &vec![]);
    assert!(ops.is_empty());
    assert!(deinit_decision("/w/repo", false, ops.is_empty(), 0, true, false).ok() == Some(Step::Nothing));
}

fn placed(id: &str, altitude: i64, topic: &str, rel_path: &str) -> ParsedDoc {
    let mut d = doc(id, altitude, topic, &[], "# Body");
    d.rel_path = rel_path.to_string();
    d
}

#[test]
fn relocate_moves_files_between_layouts() {
    // The altitude layout: overview (alt 0) at the root, auth (alt 1) in `1/`.
    let docs = vec![placed("overview", 0, "core", "overview.md"), placed("auth", 1, "core/auth", "1/auth.md")];
    assert!(relocation_moves(&docs, None, Layout::Altitude).is_empty());
    let moves = relocation_moves(&docs, None, Layout::Flat);
    assert!(moves.len() >= 1);
    assert!(moves.iter().any(|m| m.id == "auth" && m.from == "1/auth.md" && m.to == "auth.md"), "{}", moves.len());
}

#[test]
fn relocating_twice_moves_nothing_the_second_time() {
    let mut docs = vec![
        placed("overview", 0, "core", "overview.md"),
        placed("auth", 1, "core/auth", "1/auth.md"),
        placed("tokens", 3, "core/auth/oauth", "3/tokens.md"),
    ];
    let moves = relocation_moves(&docs, None, Layout::Topic);
    assert_eq!(moves.len(), 3);
    for m in &moves {
        let d = docs.iter_mut().find(|d| d.frontmatter.id.as_deref() == Some(m.id.as_str())).unwrap();
        assert_eq!(d.rel_path, m.from);
        d.rel_path = m.to.clone();
    }
    assert_eq!(docs[2].rel_path, "core/auth/oauth/tokens.md");
    assert!(relocation_moves(&docs, None, Layout::Topic).is_empty());
    let only = relocation_moves(&docs, Some("auth"), Layout::Flat);
    assert_eq!(only.len(), 1);
    assert_eq!(only[0].to, "auth.md");
}

fn master() -> Vec<(String, Config)> {
    vec![("/m/api".to_string(), config("/m/api")), ("/m/web".to_string(), config("/m/web"))]
}

#[test]
fn documents_in_other_repos_are_addressed_by_a_repo_qualifier() {
    let ws = Workspace::resolve(None, false, 1, "/m".to_string(), master()).unwrap();
    // api holds auth-overview; web holds session-handling and auth-overview.
    let (i, id) = ws.resolve_doc("session-handling", &vec![false, true]).ok().unwrap();
    assert_eq!((ws.members[i].name.as_str(), id.as_str()), ("web", "session-handling"));
    let e = ws.resolve_doc("auth-overview", &vec![true, true]).err().unwrap();
    assert!(e.message().contains("exists in 2 repos"), "{}", e.message());
    let (i, id) = ws.resolve_doc("api:auth-overview", &vec![false, false]).ok().unwrap();
    assert_eq!((ws.members[i].name.as_str(), id.as_str()), ("api", "auth-overview"));
    let (i, _) = ws.resolve_doc("web:auth-overview", &vec![false, false]).ok().unwrap();
    assert_eq!(ws.members[i].name, "web");
    let e = ws.resolve_doc("nope:auth-overview", &vec![false, false]).err().unwrap();
    assert!(e.message().contains("no repo `nope`"), "{}", e.message());
}

#[test]
fn a_repo_with_its_own_kb_searches_alone_until_all_is_asked_for() {
    let solo = Workspace::resolve(Some(config("/m/api")), false, 1, "/m".to_string(), master()).unwrap();
    assert_eq!(solo.members.len(), 1);
    assert!(!solo.spans_repos);
    let all = Workspace::resolve(Some(config("/m/api")), true, 1, "/m".to_string(), master()).unwrap();
    assert_eq!(all.members.len(), 2);
    assert!(all.spans_repos);
}

#[test]
fn refresh_looks_where_each_agent_installs_skills() {
    let files = engrym::install::refresh_candidates("/w/repo", Some("/w/home"));
    assert!(files.iter().any(|f| f == "/w/home/.codex/skills/engrym/SKILL.md"), "{files:?}");
    assert!(files.iter().any(|f| f == "/w/repo/.opencode/skills/engrym-bootstrap/SKILL.md"), "{files:?}");
    assert!(files.iter().any(|f| f == "/w/home/.config/opencode/skills/engrym/SKILL.md"), "{files:?}");
    let no_home = engrym::install::refresh_candidates("/w/repo", None);
    assert!(no_home.iter().all(|f| f.starts_with("/w/repo/")), "{no_home:?}");
}

#[test]
fn new_refuses_an_existing_file_and_a_taken_id() {
    let e = new_check("core/a.md", true, false, "a", None).err().unwrap();
    assert_eq!(e.message(), "core/a.md already exists (use --force to overwrite)");
    assert!(new_check("core/a.md", true, true, "a", None).is_ok());
    let e = new_check("core/a.md", false, false, "a", Some("old/a.md")).err().unwrap();
    assert_eq!(e.message(), "id `a` is already used by old/a.md");
    assert!(new_check("core/a.md", false, false, "a", None).is_ok());
}

#[test]
fn embedding_reuses_cached_vectors_and_embeds_the_rest() {
    let chunks = vec![(1i64, "alpha".to_string()), (2, "beta".to_string()), (3, "alpha".to_string())];
    let hits = vec![Some(vec![0u8; 8]), None, Some(vec![1u8; 8])];
    let plan = plan_embedding(&chunks, &hits);
    assert_eq!(plan.cached, vec![(1, vec![0u8; 8]), (3, vec![1u8; 8])]);
    assert_eq!(plan.misses, vec![(2, "beta".to_string(), content_hash("beta"))]);
    assert_eq!(plan.live, vec![content_hash("alpha"), content_hash("beta"), content_hash("alpha")]);
    assert_eq!(plan.cached_dim, 2);
    assert_eq!(plan_embedding(&vec![], &vec![]).cached_dim, 0);
    assert_eq!(pair_vectors(&plan.misses, vec![]).err(), Some((0, 1)));
    let paired = pair_vectors(&plan.misses, vec![vec![9u8; 4]]).ok().unwrap();
    assert_eq!(paired, vec![(2, content_hash("beta"), vec![9u8; 4])]);
}

#[test]
fn members_are_named_by_their_path_below_the_root() {
    let found = vec![
        ("/r/org-a/api".to_string(), config("/r/org-a/api")),
        ("/r/org-a/web".to_string(), config("/r/org-a/web")),
        ("/r/org-b/api".to_string(), config("/r/org-b/api")),
        ("/r/solo".to_string(), config("/r/solo")),
    ];
    let ws = Workspace::resolve(None, false, 2, "/r".to_string(), found).unwrap();
    let names: Vec<&str> = ws.members.iter().map(|m| m.name.as_str()).collect();
    assert_eq!(names, vec!["org-a/api", "org-a/web", "org-b/api", "solo"]);
    assert_eq!(ws.depth, 2);
    let nested = vec![
        ("/work/repoA/repoB".to_string(), config("/work/repoA/repoB")),
        ("/work/repoA/repoC".to_string(), config("/work/repoA/repoC")),
    ];
    let ws = Workspace::resolve(None, false, 1, "/work/repoA".to_string(), nested).unwrap();
    let names: Vec<&str> = ws.members.iter().map(|m| m.name.as_str()).collect();
    assert_eq!(names, vec!["repoB", "repoC"]);
}

#[test]
fn a_qualified_reference_needs_no_index_lookups() {
    let found = vec![
        ("/w/api".to_string(), config("/w/api")),
        ("/w/web".to_string(), config("/w/web")),
    ];
    let ws = Workspace::resolve(None, false, 1, "/w".to_string(), found).unwrap();
    assert!(!ws.needs_holders("web:auth-overview"));
    assert!(!ws.needs_holders("nope:auth-overview"));
    assert!(ws.needs_holders("auth-overview"));
}
