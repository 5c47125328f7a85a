use notevault::cards::{apply_schedule, card_not_found, extract_cards_at};
use notevault::fsrs::{rating_of, review_schedule, CardState, Rating, DAY_SECS};
use notevault::git::{
    ahead_behind_call, assemble_status, auto_commit_next, auto_commit_start, branch_of, commit_entry,
    commit_next, commit_start, line_ranges, log_args, not_repo_status, parse_ahead_behind, parse_i64,
    parse_log, parse_porcelain, parse_u32, porcelain_cut_ok, AutoCommitStep, CommitStep, GitAction,
};
use notevault::index::{
    build_graph, contains_str, dangling_links, escape_fts_query, is_cjk, needs_update,
    paths_to_remove, resolve_links, stable_order_desc, LinkRow,
};
use notevault::links::RawLink;
use notevault::notes::{is_inbox_name, listed_entry, new_note_content, note_file_name, reindexed_entry};
use notevault::publish::{default_base, export_outcome, export_preflight, node_args, tags_dir, PublishOptions};
use notevault::vault::{check_vault_path, vault_info, VaultError};

fn s(v: &[&str]) -> Vec<String> {
    v.iter().map(|x| x.to_string()).collect()
}

fn other(e: VaultError) -> String {
    match e {
        VaultError::Other(m) => m,
        _ => panic!("expected Other"),
    }
}

#[test]
fn fts_queries() {
    assert_eq!(escape_fts_query("hello world"), "\"hello\"* \"world\"*");
    assert_eq!(escape_fts_query("  c++ \"quoted\" a-b_c  中文检索 ..."), "\"c\"* \"quoted\"* \"a-b_c\"* \"中文检索\"*");
    assert_eq!(escape_fts_query("!!! ??"), "");
    assert_eq!(escape_fts_query(""), "");
    assert_eq!(escape_fts_query("naïve über"), "\"naïve\"* \"über\"*");
    assert!(is_cjk('中') && is_cjk('ひ') && is_cjk('カ') && !is_cjk('a'));
}

#[test]
fn index_sync() {
    assert!(needs_update(&None, "h"));
    assert!(needs_update(&Some("a".into()), "b"));
    assert!(!needs_update(&Some("a".into()), "a"));
    let gone = paths_to_remove(&s(&["a.md", "b.md", "c.md", "a.md"]), &s(&["b.md"]));
    assert_eq!(gone, s(&["a.md", "c.md"]));
    assert!(contains_str(&gone, &"c.md".to_string()));
    let d = dangling_links(vec![("a.md".into(), "Missing".into(), "ctx".into())]);
    assert_eq!((d[0].from_note.as_str(), d[0].to_alias.as_str(), d[0].context.as_str()), ("a.md", "Missing", "ctx"));
}

fn raw(alias: &str, kind: &str, to_block: Option<&str>) -> RawLink {
    RawLink {
        from_block_id: Some("blk_1".into()),
        to_alias: alias.into(),
        link_type: kind.into(),
        context: "c".into(),
        to_block_id: to_block.map(|x| x.to_string()),
    }
}

#[test]
fn link_resolution() {
    let notes = vec![
        ("dir/Alpha.md".to_string(), "Alpha Title".to_string()),
        ("Beta.md".to_string(), "Alpha".to_string()),
    ];
    let blocks = vec![("blk_x".to_string(), "dir/Alpha.md".to_string())];
    let links = vec![
        raw("Alpha Title", "wiki", Some("sec")),
        raw("Alpha", "wiki", None),
        raw("dir/Alpha", "transclusion", None),
        raw("blk_x", "block_ref", Some("ignored")),
        raw("Beta", "block_ref", None),
        raw("Nowhere", "wiki", None),
    ];
    let r = resolve_links(&notes, &blocks, &links);
    assert_eq!(r[0].to_note_id.as_deref(), Some("dir/Alpha.md"));
    assert_eq!(r[0].to_block_id.as_deref(), Some("sec"));
    assert_eq!(r[1].to_note_id.as_deref(), Some("Beta.md"));
    assert_eq!(r[2].to_note_id.as_deref(), Some("dir/Alpha.md"));
    assert_eq!(r[3].to_note_id.as_deref(), Some("dir/Alpha.md"));
    assert_eq!(r[3].to_block_id.as_deref(), Some("blk_x"));
    assert_eq!(r[4].to_note_id.as_deref(), Some("Beta.md"));
    assert_eq!(r[4].to_block_id.as_deref(), Some("Beta"));
    assert_eq!(r[5].to_note_id, None);
    assert_eq!(r[5].from_block_id.as_deref(), Some("blk_1"));
}

#[test]
fn path_match_comes_before_title_match() {
    // X.md (titled "Alpha") is read before q.md (titled "X"): [[X]] is X.md.
    let notes = vec![("X.md".to_string(), "Alpha".to_string()), ("q.md".to_string(), "X".to_string())];
    let r = resolve_links(&notes, &vec![], &[raw("X", "wiki", None)]);
    assert_eq!(r[0].to_note_id.as_deref(), Some("X.md"));
    // the other order of reading gives the same answer
    let notes = vec![("q.md".to_string(), "X".to_string()), ("X.md".to_string(), "Alpha".to_string())];
    let r = resolve_links(&notes, &vec![], &[raw("X", "wiki", None), raw("Alpha", "wiki", None)]);
    assert_eq!(r[0].to_note_id.as_deref(), Some("X.md"));
    assert_eq!(r[1].to_note_id.as_deref(), Some("X.md"));
}

fn row(f: &str, t: &str, fb: Option<&str>) -> LinkRow {
    LinkRow { from: f.into(), to: t.into(), kind: "wiki".into(), from_block: fb.map(|x| x.into()), to_block: None }
}

#[test]
fn graph() {
    let notes = vec![
        ("a.md".to_string(), "A".to_string()),
        ("b.md".to_string(), "B".to_string()),
        ("c.md".to_string(), "C".to_string()),
        ("a.md".to_string(), "A2".to_string()),
    ];
    let tags = vec![("b.md".to_string(), "x".to_string()), ("b.md".to_string(), "y".to_string())];
    let links = vec![row("a.md", "b.md", Some("blk_1")), row("c.md", "b.md", None), row("a.md", "c.md", None)];
    let g = build_graph(&notes, &tags, &links);
    assert_eq!(g.edges.len(), 3);
    assert_eq!(g.edges[0].id, "a.md->b.md/blk_1/-");
    assert_eq!(g.edges[1].id, "c.md->b.md/-/-");
    let ids: Vec<&str> = g.nodes.iter().map(|n| n.id.as_str()).collect();
    assert_eq!(ids, vec!["a.md", "b.md", "c.md"]);
    let a = &g.nodes[0];
    assert_eq!((a.label.as_str(), a.in_degree, a.out_degree, a.size, a.kind.as_str()), ("A2", 0, 2, 7, "note"));
    let b = &g.nodes[1];
    assert_eq!((b.in_degree, b.out_degree, b.size), (2, 0, 7));
    assert_eq!(b.tags, s(&["x", "y"]));
    assert_eq!((g.nodes[2].in_degree, g.nodes[2].out_degree), (1, 1));
}

#[test]
fn stable_order() {
    assert_eq!(stable_order_desc(&vec![1, 5, 3, 5, 1]), vec![1, 3, 2, 0, 4]);
    assert_eq!(stable_order_desc(&vec![]), Vec::<usize>::new());
}

#[test]
fn numbers_lines_words() {
    assert_eq!(parse_u32("42"), Some(42));
    assert_eq!(parse_u32("+7"), Some(7));
    assert_eq!(parse_u32("4294967295"), Some(u32::MAX));
    assert_eq!(parse_u32("4294967296"), None);
    assert_eq!(parse_u32("-1"), None);
    assert_eq!(parse_u32(""), None);
    assert_eq!(parse_u32("+"), None);
    assert_eq!(parse_u32(" 1"), None);
    assert_eq!(parse_i64("-9223372036854775808"), Some(i64::MIN));
    assert_eq!(parse_i64("9223372036854775807"), Some(i64::MAX));
    assert_eq!(parse_i64("9223372036854775808"), None);
    assert_eq!(parse_i64("-"), None);
    assert_eq!(parse_i64("1700000000"), Some(1_700_000_000));
    for t in ["", "a", "a\n", "a\r\n", "a\n\nb", "a\r", "\n", "x\r\ny\rz\n"] {
        let v: Vec<char> = t.chars().collect();
        let got: Vec<String> = line_ranges(&v).iter().map(|(a, b)| v[*a..*b].iter().collect()).collect();
        let want: Vec<String> = t.lines().map(|l| l.to_string()).collect();
        assert_eq!(got, want, "lines of {:?}", t);
    }
    for t in ["", "7", "3\t4", "1 2 3", "x 5", "  10   20  \n"] {
        let parsed = parse_ahead_behind(t);
        let mut want = (0u32, 0u32);
        for line in t.lines() {
            let parts: Vec<&str> = line.split_whitespace().collect();
            if parts.len() == 2 {
                want = (parts[0].parse().unwrap_or(0), parts[1].parse().unwrap_or(0));
            }
        }
        assert_eq!(parsed, want, "ahead/behind of {:?}", t);
    }
    assert_eq!(parse_ahead_behind("3\t4\n5 6\n"), (5, 6));
}

#[test]
fn porcelain() {
    let out = " M notes/a.md\n?? new.md\nA  added.md\nMM both.md\n D gone.md\nR  old -> new\nx\n";
    assert!(porcelain_cut_ok(out));
    let (modified, untracked, staged) = parse_porcelain(out);
    assert_eq!(modified, s(&["notes/a.md", "both.md", "gone.md"]));
    assert_eq!(untracked, s(&["new.md"]));
    assert_eq!(staged, s(&["added.md", "both.md", "old -> new"]));
    assert!(!porcelain_cut_ok(" Mé\n"));
    assert!(porcelain_cut_ok("é x\n"));
    let (_, _, staged) = parse_porcelain("é x\n");
    assert_eq!(staged, s(&["x"]));
}

#[test]
fn status_assembly() {
    assert_eq!(ahead_behind_call(&None), None);
    let b = branch_of(&Ok(" main\n".into()));
    assert_eq!(b.as_deref(), Some("main"));
    assert_eq!(branch_of(&Ok("\n".into())), None);
    assert_eq!(ahead_behind_call(&b).unwrap(), s(&["rev-list", "--left-right", "--count", "main...origin/main"]));
    let st = assemble_status(
        &Ok("abc123\n".into()),
        &Ok("main\n".into()),
        &Ok("?? x.md\n".into()),
        &Err("no remote".into()),
        &Some(Ok("2\t1\n".into())),
    );
    assert!(st.is_repo);
    assert_eq!(st.head.as_deref(), Some("abc123"));
    assert_eq!(st.branch.as_deref(), Some("main"));
    assert_eq!(st.untracked, s(&["x.md"]));
    assert_eq!((st.ahead, st.behind), (2, 1));
    assert_eq!(st.remote_url, None);
    let n = not_repo_status();
    assert!(!n.is_repo && n.head.is_none() && n.staged.is_empty());
}

#[test]
fn git_log_parsing() {
    assert_eq!(log_args(20), s(&["log", "-20", "--format=%H%n%h%n%s%n%an%n%ae%n%ct"]));
    let out = "f1\ns1\nFirst\nAnn\nann@x\n1700000000\n\nf2\ns2\nSecond\nBob\nbob@x\nbad\n\nshort\n";
    let es = parse_log(out);
    assert_eq!(es.len(), 2);
    assert_eq!((es[0].id.as_str(), es[0].full_id.as_str(), es[0].summary.as_str()), ("s1", "f1", "First"));
    assert_eq!((es[0].author.as_str(), es[0].email.as_str(), es[0].timestamp), ("Ann", "ann@x", 1_700_000_000));
    assert_eq!(es[1].timestamp, 0);
    assert_eq!(es[1].files_changed, 0);
    let e = commit_entry("f\ns\nmsg\nme\nme@x\n12\n", &Ok("a.md\nb.md\n".into()));
    assert_eq!((e.full_id.as_str(), e.id.as_str(), e.timestamp, e.files_changed), ("f", "s", 12, 2));
    let e = commit_entry("f\n", &Err("x".into()));
    assert_eq!((e.full_id.as_str(), e.id.as_str(), e.timestamp, e.files_changed), ("f", "", 0, 0));
}

fn run_args<T>(a: &GitAction<T>) -> Vec<String> {
    match a {
        GitAction::Run(v) => v.clone(),
        GitAction::Done(_) => panic!("expected a call"),
    }
}

#[test]
fn auto_commit_steps() {
    let (st, a) = auto_commit_start();
    assert_eq!(run_args(&a), s(&["rev-parse", "--git-dir"]));
    let (_, a) = auto_commit_next(st, "n.md", &Err("not a repo".into()));
    assert!(matches!(a, GitAction::Done(None)));
    let (st, a) = auto_commit_next(AutoCommitStep::Probe, "n.md", &Ok(".git".into()));
    assert_eq!(run_args(&a), s(&["add", "n.md"]));
    let (st, a) = auto_commit_next(st, "n.md", &Ok(String::new()));
    assert_eq!(run_args(&a), s(&["diff", "--cached", "--name-only"]));
    let (_, nothing) = auto_commit_next(st, "n.md", &Ok(" \n".into()));
    assert!(matches!(nothing, GitAction::Done(None)));
    let (st, a) = auto_commit_next(AutoCommitStep::Staged, "n.md", &Ok("n.md\n".into()));
    assert_eq!(run_args(&a), s(&["commit", "-m", "Update n.md"]));
    let (st, a) = auto_commit_next(st, "n.md", &Err("hook failed".into()));
    assert_eq!(run_args(&a), s(&["rev-parse", "--short", "HEAD"]));
    match auto_commit_next(st, "n.md", &Ok("abc1234\n".into())).1 {
        GitAction::Done(Some(h)) => assert_eq!(h, "abc1234"),
        _ => panic!(),
    }
}

#[test]
fn commit_steps() {
    let (st, a) = commit_start();
    assert_eq!(run_args(&a), s(&["rev-parse", "--git-dir"]));
    match commit_next(st, "msg", Err("x".into())).1 {
        GitAction::Done(Err(e)) => assert_eq!(other(e), "Not a git repo"),
        _ => panic!(),
    }
    let (st, a) = commit_next(CommitStep::Probe, "msg", Ok(".git".into()));
    assert_eq!(run_args(&a), s(&["add", "-A"]));
    let (st, a) = commit_next(st, "msg", Ok(String::new()));
    assert_eq!(run_args(&a), s(&["commit", "-m", "msg"]));
    match commit_next(CommitStep::Commit, "msg", Err("nothing to commit".into())).1 {
        GitAction::Done(Err(e)) => assert_eq!(other(e), "nothing to commit"),
        _ => panic!(),
    }
    let (st, a) = commit_next(st, "msg", Ok(String::new()));
    assert_eq!(run_args(&a), s(&["log", "-1", "--format=%H%n%h%n%s%n%an%n%ae%n%ct"]));
    let (st, a) = commit_next(st, "msg", Ok("full\nshort\nmsg\nme\nme@x\n5\n".into()));
    assert_eq!(run_args(&a), s(&["diff-tree", "--no-commit-id", "--name-only", "-r", "full"]));
    match commit_next(st, "msg", Ok("a.md\n".into())).1 {
        GitAction::Done(Ok(e)) => {
            assert_eq!((e.id.as_str(), e.summary.as_str(), e.timestamp, e.files_changed), ("short", "msg", 5, 1))
        }
        _ => panic!(),
    }
}

#[test]
fn new_notes_and_entries() {
    let (stem, file) = note_file_name("  Ideas.md/ ").unwrap();
    assert_eq!((stem.as_str(), file.as_str()), ("Ideas", "Ideas.md"));
    let (stem, _) = note_file_name("a\\\\").unwrap();
    assert_eq!(stem, "a");
    assert_eq!(other(note_file_name(" / ").unwrap_err()), "笔记名不能为空");
    assert_eq!(new_note_content("Ideas"), "# Ideas\n\n");
    assert!(is_inbox_name("0-Inbox") && !is_inbox_name("1-Projects") && !is_inbox_name("0"));
    assert!(!listed_entry(".git") && !listed_entry("node_modules") && listed_entry("notes"));
    assert!(reindexed_entry(".", 0) && !reindexed_entry(".obsidian", 1) && !reindexed_entry("node_modules", 0));
}

#[test]
fn vault_and_publish() {
    assert!(matches!(check_vault_path("/x", false, false), Err(VaultError::VaultNotFound(p)) if p == "/x"));
    assert!(matches!(check_vault_path("/x", true, false), Err(VaultError::InvalidPath(p)) if p == "/x"));
    assert!(check_vault_path("/x", true, true).is_ok());
    let v = vault_info("/home/me/vault-a");
    assert_eq!((v.path.as_str(), v.name.as_str()), ("/home/me/vault-a", "vault-a"));
    assert_eq!(vault_info("/").name, "vault");
    assert_eq!(VaultError::NoVaultOpen.message(), "No vault is currently open");
    assert_eq!(VaultError::Other("x".into()).message(), "Operation failed: x");
    assert_eq!(default_base(), "/");
    assert_eq!(other(export_preflight("/v", false, "s.mjs", true).unwrap_err()), "vault 路径不存在: /v");
    assert_eq!(
        other(export_preflight("/v", true, "s.mjs", false).unwrap_err()),
        "找不到 SSG 脚本: s.mjs（应在项目根 scripts/ 下）"
    );
    let opts = PublishOptions { output_path: "out/".into(), base_url: "/".into() };
    assert_eq!(node_args("s.mjs", "/v", &opts), s(&["s.mjs", "--vault", "/v", "--out", "out/", "--base", "/"]));
    assert_eq!(tags_dir("out//"), "out/tags");
    assert_eq!(other(export_outcome(false, Some(-2), "o", "e", "out".into(), 0, 0).unwrap_err()), "SSG 失败 (exit Some(-2)):\noe");
    assert_eq!(other(export_outcome(false, None, "", "", "out".into(), 0, 0).unwrap_err()), "SSG 失败 (exit None):\n");
    let ok = export_outcome(true, Some(0), "built", "", "out".into(), 3, 1).unwrap();
    assert_eq!((ok.output_path.as_str(), ok.pages, ok.tags, ok.log.as_str()), ("out", 3, 1, "built"));
}

#[test]
fn reviews() {
    assert!(matches!(rating_of(3), Ok(Rating::Good)));
    assert_eq!(other(rating_of(7).unwrap_err()), "Invalid rating: 7 (must be 1-4)");
    let first = review_schedule(0, 0, Rating::Easy, 1000, 0);
    assert_eq!((first.reps, first.lapses, first.last_review_at, first.next_review_at), (1, 0, Some(1000), 1000 + 4 * DAY_SECS));
    assert_eq!(first.state, CardState::Review);
    let again = review_schedule(3, 1, Rating::Again, 1000, 999);
    assert_eq!((again.reps, again.lapses, again.next_review_at, again.state), (4, 2, 1600, CardState::Relearning));
    let good = review_schedule(3, 1, Rating::Good, 1000, 5 * DAY_SECS);
    assert_eq!((good.reps, good.lapses, good.next_review_at, good.state), (4, 1, 1000 + 5 * DAY_SECS, CardState::Review));
    let card = extract_cards_at("- Q #card\n  A\n", "n.md", 10).remove(0);
    let c = apply_schedule(card, good);
    assert_eq!((c.reps, c.lapses, c.next_review_at, c.state.as_str(), c.question.as_str()), (4, 1, 1000 + 5 * DAY_SECS, "review", "Q"));
    assert_eq!(other(card_not_found("card_1")), "Card not found: card_1");
}
