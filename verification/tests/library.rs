use engrym::agents::{add_memory_path, parse_memory_block, remove_memory_path, render_memory_block, MEM_BEGIN, MEM_END};
use engrym::author::doc_rel_path;
use engrym::browse::{edge_label, fts_match, percent_decode, render_markdown, rewrite_wikilinks};
use engrym::config::{project_key, Layout};
use engrym::parse::{chunk_by_heading, extract_wikilinks, split_frontmatter};
use engrym::registry::{local_key, normalize_git_url, parse_origin_url, Registry};

#[test]
fn adds_block_to_empty_then_parses_it_back() {
    let out = render_memory_block("", &["/a".into(), "/b".into()]);
    assert!(out.contains(MEM_BEGIN) && out.contains(MEM_END));
    assert_eq!(parse_memory_block(&out), vec!["/a", "/b"]);
}

#[test]
fn preserves_surrounding_content_when_splicing() {
    let original = "# My notes\n\nkeep me\n";
    let out = render_memory_block(original, &["/repo".into()]);
    assert!(out.starts_with("# My notes\n\nkeep me"), "lost prose: {out}");
    assert_eq!(parse_memory_block(&out), vec!["/repo"]);

    let out2 = render_memory_block(&out, &["/repo".into(), "/other".into()]);
    assert!(out2.starts_with("# My notes\n\nkeep me"), "{out2}");
    assert_eq!(parse_memory_block(&out2), vec!["/repo", "/other"]);
}

#[test]
fn empty_paths_removes_block_but_keeps_prose() {
    let original = "# Notes\n\nkeep me\n";
    let with = render_memory_block(original, &["/repo".into()]);
    let without = render_memory_block(&with, &[]);
    assert!(!without.contains(MEM_BEGIN), "block should be gone: {without}");
    assert!(without.contains("keep me"));
    assert!(parse_memory_block(&without).is_empty());
}

#[test]
fn layouts_place_files_correctly() {
    let topics = vec!["search/hybrid".to_string(), "embedding".to_string()];
    let alt = Some(3);
    assert_eq!(doc_rel_path(Layout::Flat, "rrf-fusion", alt, &topics), "rrf-fusion.md");
    assert_eq!(
        doc_rel_path(Layout::Topic, "rrf-fusion", alt, &topics),
        "search/hybrid/rrf-fusion.md"
    );
    assert_eq!(doc_rel_path(Layout::Altitude, "rrf-fusion", alt, &topics), "3/rrf-fusion.md");
    assert_eq!(
        doc_rel_path(Layout::Altitude, "engrym-overview", Some(0), &topics),
        "engrym-overview.md"
    );
    assert_eq!(doc_rel_path(Layout::Altitude, "x", None, &[]), "x.md");
    assert_eq!(doc_rel_path(Layout::Topic, "x", Some(0), &[]), "x.md");
}

#[test]
fn edge_labels_read_by_direction() {
    assert_eq!(edge_label("references", true), "references");
    assert_eq!(edge_label("references", false), "referenced by");
    assert_eq!(edge_label("depends_on", false), "required by");
    assert_eq!(edge_label("refines", false), "refined by");
    assert_eq!(edge_label("unknown", true), "unknown");
}

#[test]
fn renders_gfm_tables() {
    let html = render_markdown("| A | B |\n|---|---|\n| 1 | 2 |\n");
    assert!(html.contains("<table>") && html.contains("<td>1</td>"), "{html}");
}

#[test]
fn rewrites_prose_wikilinks_only() {
    let out = rewrite_wikilinks("see [[token-store]] and [[oauth|OAuth]]");
    assert!(out.contains("[token-store](/doc/token-store)"), "{out}");
    assert!(out.contains("[OAuth](/doc/oauth)"), "{out}");
}

#[test]
fn leaves_wikilinks_in_code_untouched() {
    let out = rewrite_wikilinks("`[[x]]` then [[y]]\n\n```\n[[z]]\n```\n");
    assert!(out.contains("`[[x]]`"), "inline code changed: {out}");
    assert!(out.contains("[[z]]"), "fenced block changed: {out}");
    assert!(out.contains("[y](/doc/y)"), "prose link missing: {out}");
}

#[test]
fn percent_decode_handles_escapes_and_plus() {
    assert_eq!(percent_decode("a%20b+c"), "a b c");
    assert_eq!(percent_decode("x%2Fy"), "x/y");
    assert_eq!(percent_decode("plain"), "plain");
}

#[test]
fn fts_match_tokenizes_safely() {
    assert_eq!(fts_match("hello, world!").as_deref(), Some("\"hello\" OR \"world\""));
    assert_eq!(fts_match("   "), None);
}

#[test]
fn project_key_is_stable_readable_and_path_specific() {
    let a = project_key("/Users/me/Projects/engrym");
    assert_eq!(a, project_key("/Users/me/Projects/engrym"));
    assert!(a.starts_with("engrym-"), "got {a}");
    let b = project_key("/tmp/elsewhere/engrym");
    assert!(b.starts_with("engrym-"));
    assert_ne!(a, b);
}

#[test]
fn splits_frontmatter() {
    let (yaml, body) = split_frontmatter("---\nid: x\n---\nhello\n").unwrap();
    assert_eq!(yaml, "id: x\n");
    assert_eq!(body, "hello\n");
}

#[test]
fn no_frontmatter_returns_none() {
    assert!(split_frontmatter("# just markdown\n").is_none());
    assert!(split_frontmatter("---\nid: x\nnever closed\n").is_none());
}

#[test]
fn extracts_distinct_wikilinks_stripping_aliases() {
    let links = extract_wikilinks("see [[a]] and [[b|Bee]] and [[a]] again");
    assert_eq!(links, vec!["a".to_string(), "b".to_string()]);
}

#[test]
fn ignores_wikilinks_inside_code() {
    let body = "real [[link-a]] but `[[code-span]]` and\n\n```\n[[in-block]]\n```\n";
    let links = extract_wikilinks(body);
    assert_eq!(links, vec!["link-a".to_string()]);
}

#[test]
fn chunks_by_heading_with_lead_and_clean_inline() {
    let body = "lead text\n\n# First\n\nlinks to [[token-store]] here\n\n## Second\n\nmore";
    let chunks = chunk_by_heading(body);
    assert_eq!(chunks.len(), 3);
    assert_eq!(chunks[0].heading, None);
    assert_eq!(chunks[0].text, "lead text");
    assert_eq!(chunks[1].heading.as_deref(), Some("First"));
    assert!(chunks[1].text.contains("[[token-store]]"));
    assert_eq!(chunks[2].heading.as_deref(), Some("Second"));
}

#[test]
fn scp_and_https_urls_normalize_to_one_identity() {
    let want = "github.com/uplisting/uplisting-api";
    for url in [
        "git@github.com:uplisting/uplisting-api.git",
        "https://github.com/uplisting/uplisting-api.git",
        "https://github.com/uplisting/uplisting-api",
        "ssh://git@github.com/uplisting/uplisting-api.git",
        "git@GitHub.com:uplisting/uplisting-api.git",
    ] {
        assert_eq!(normalize_git_url(url), want, "for {url}");
    }
    assert_ne!(
        normalize_git_url("git@github.com:uplisting/uplisting-api.git"),
        normalize_git_url("git@github.com:uplisting/uplisting-frontend.git"),
    );
}

#[test]
fn parses_origin_url_ignoring_other_remotes() {
    let cfg = "\
[core]
\trepositoryformatversion = 0
[remote \"upstream\"]
\turl = git@github.com:other/fork.git
[remote \"origin\"]
\turl = git@github.com:uplisting/uplisting-api.git
\tfetch = +refs/heads/*:refs/remotes/origin/*
";
    assert_eq!(
        parse_origin_url(cfg).as_deref(),
        Some("git@github.com:uplisting/uplisting-api.git")
    );
}

#[test]
fn link_shares_a_store_and_unlink_reverts() {
    let mut reg = Registry::default();
    let a = "/tmp/clone-a";
    let b = "/tmp/clone-b";
    let id = Some("github.com/org/repo".to_string());
    let live: Vec<String> = vec![];

    assert!(reg.link(a, "repo-key", id.clone()));
    assert!(reg.link(b, "repo-key", id.clone()));
    assert_eq!(reg.key_for_anchor(a).as_deref(), Some("repo-key"));
    assert_eq!(reg.key_for_anchor(b).as_deref(), Some("repo-key"));
    assert_eq!(reg.find_by_identity("github.com/org/repo").unwrap().anchors.len(), 2);

    assert_eq!(reg.unlink(b, &live).as_deref(), Some("repo-key"));
    assert_eq!(reg.key_for_anchor(b), None);
    assert_eq!(reg.key_for_anchor(a).as_deref(), Some("repo-key"));
}

#[test]
fn install_memory_then_uninstall_restores_the_file() {
    let original = "# My global instructions\n\nkeep this line\n";
    let (added, changed) = add_memory_path(original, "/w/repo");
    assert!(changed);
    assert!(added.contains("keep this line") && added.contains("engrym knowledge bases"), "{added}");
    assert_eq!(add_memory_path(&added, "/w/repo"), (added.clone(), false));
    let (removed, changed) = remove_memory_path(&added, "/w/repo");
    assert!(changed);
    assert_eq!(removed, original);
    assert_eq!(remove_memory_path(&removed, "/w/repo"), (removed.clone(), false));
    let (from_nothing, _) = add_memory_path("", "/w/repo");
    assert_eq!(remove_memory_path(&from_nothing, "/w/repo"), (String::new(), true));
}

#[test]
fn prune_drops_missing_anchors_and_empty_stores() {
    let mut reg = Registry::default();
    assert!(reg.link("/w/a", "key-a", None));
    assert!(reg.link("/w/b", "key-b", None));
    assert!(reg.link("/w/c", "key-b", None));
    let existing = vec!["/w/a".to_string(), "/w/c".to_string()];
    let live: Vec<String> = vec![];
    assert!(reg.prune(&existing, &live));
    assert_eq!(reg.key_for_anchor("/w/b"), None);
    assert_eq!(reg.key_for_anchor("/w/c").as_deref(), Some("key-b"));
    assert!(!reg.prune(&existing, &live));
    // An anchor that vanished with nothing else on its store drops the store too,
    // unless the store is still on disk.
    let only_c = vec!["/w/c".to_string()];
    assert!(reg.prune(&only_c, &vec!["key-a".to_string()]));
    assert_eq!(reg.repos.len(), 2);
    assert!(reg.prune(&only_c, &live));
    assert_eq!(reg.repos.len(), 1);
}

#[test]
fn a_linked_clone_uses_the_linked_store_key() {
    let mut reg = Registry::default();
    let clone = "/w/clone-b";
    assert_eq!(local_key(&reg, clone), project_key(clone));
    reg.link(clone, "repo-a1b2c3d4", Some("github.com/org/repo".to_string()));
    assert_eq!(local_key(&reg, clone), "repo-a1b2c3d4");
    assert_eq!(local_key(&reg, "/w/other"), project_key("/w/other"));
}

#[test]
fn clearing_the_block_restores_the_file() {
    let paths = vec!["/a".to_string(), " spaced ".to_string()];
    for original in ["", "# Mine\n\nkeep this line\n"] {
        let with = render_memory_block(original, &paths);
        assert_eq!(render_memory_block(&with, &[]), original);
    }
    let one = render_memory_block("intro\n", &["/a".to_string()]);
    let cleared = render_memory_block(&one, &[]);
    assert!(parse_memory_block(&cleared).is_empty());
    assert!(!cleared.contains(MEM_BEGIN));
}

#[test]
fn ssh_scp_and_https_forms_share_an_identity() {
    let scp = normalize_git_url("git@Example.org:team/tool.git");
    assert_eq!(scp, "example.org/team/tool");
    assert_eq!(normalize_git_url("https://Example.org/team/tool"), scp);
    assert_eq!(normalize_git_url("ssh://git@Example.org/team/tool.git"), scp);
}

#[test]
fn replacing_text_matches_str_replace() {
    for (s, p, t) in [("ab", "", "x"), ("", "", "x"), ("a{p}b{p}", "{p}", "-"), ("aaa", "aa", "b")] {
        assert_eq!(engrym::text::replace_exec(s, p, t), s.replace(p, t), "{s:?} {p:?}");
    }
}

#[test]
fn wikilink_scanner_agrees_with_the_pattern() {
    let re = regex::Regex::new(r"\[\[([^\]]+)\]\]").unwrap();
    for text in [
        "see [[a]] and [[b|Bee]]",
        "[[a]b]] [[]] [[[x]] x",
        "ünïcödé [[ké]] tail [[z]]",
        "[[unterminated [[ok]]",
        "[[a\nb]]",
    ] {
        let ours: Vec<(usize, usize, String)> = engrym::parse::wikilink_matches(text)
            .into_iter()
            .map(|m| (m.start, m.end, m.inner))
            .collect();
        let theirs: Vec<(usize, usize, String)> = re
            .captures_iter(text)
            .map(|c| {
                let m = c.get(0).unwrap();
                (m.start(), m.end(), c[1].to_string())
            })
            .collect();
        assert_eq!(ours, theirs, "{text:?}");
    }
}
