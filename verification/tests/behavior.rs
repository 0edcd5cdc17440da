use gitlink::link::{build_link, placeholder_bytes, strip_git_suffix, LinkTemplate};
use gitlink::run::{process_file, relative_to_root, run, should_process, RepoFacts, SourceFile};
use gitlink::text::{ends_with, replace_all, sub_bytes};
use gitlink::vcs::{interpret_optional_query, interpret_root_query, trim_ascii, RunError};

fn b(s: &str) -> Vec<u8> {
    s.as_bytes().to_vec()
}

fn s(v: &[u8]) -> String {
    String::from_utf8(v.to_vec()).unwrap()
}

fn count(hay: &str, needle: &str) -> usize {
    hay.matches(needle).count()
}

fn facts() -> RepoFacts {
    RepoFacts {
        root: b("/r"),
        remote: Some(b("https://host/org/repo.git")),
        branch: Some(b("main")),
    }
}

#[test]
fn plain_template_formats_link() {
    let url = strip_git_suffix(&b("https://host/org/repo.git"));
    assert_eq!(s(&url), "https://host/org/repo");
    let rel = relative_to_root(&b("/r/sub/a.ext"), &b("/r")).unwrap();
    assert_eq!(s(&rel), "sub/a.ext");
    let link = build_link(LinkTemplate::PlainLink, &url, &b("main"), &rel);
    assert_eq!(s(&link), "https://host/org/repo/tree/main/sub/a.ext");
    let out = replace_all(
        &b("see #[git] for source"),
        &placeholder_bytes(LinkTemplate::PlainLink),
        &link,
    );
    assert_eq!(s(&out), "see https://host/org/repo/tree/main/sub/a.ext for source");
}

#[test]
fn anchor_template_formats_link() {
    let url = strip_git_suffix(&b("https://host/org/repo.git"));
    let rel = relative_to_root(&b("/r/sub/a.ext"), &b("/r")).unwrap();
    let link = build_link(LinkTemplate::AnchorLink, &url, &b("main"), &rel);
    assert_eq!(s(&link), "<a href=\"https://host/org/repo/blob/main/sub/a.ext\"");
    let out = replace_all(
        &b("x <a href=\"#[git]\" y"),
        &placeholder_bytes(LinkTemplate::AnchorLink),
        &link,
    );
    assert_eq!(s(&out), "x <a href=\"https://host/org/repo/blob/main/sub/a.ext\" y");
}

#[test]
fn replaces_every_occurrence() {
    let f = SourceFile {
        path: b("/r/lib.rs"),
        content: b("a #[git] b #[git] c #[git] d"),
    };
    let out = process_file(&f, &facts(), LinkTemplate::PlainLink).unwrap();
    let text = s(&out);
    assert_eq!(count(&text, "#[git]"), 0);
    assert_eq!(count(&text, "https://host/org/repo/tree/main/lib.rs"), 3);
    assert_eq!(text, "a https://host/org/repo/tree/main/lib.rs b https://host/org/repo/tree/main/lib.rs c https://host/org/repo/tree/main/lib.rs d");
}

#[test]
fn content_without_placeholder_is_unchanged() {
    let f = SourceFile {
        path: b("/r/lib.rs"),
        content: b("fn main() {}\n"),
    };
    let out = process_file(&f, &facts(), LinkTemplate::PlainLink).unwrap();
    assert_eq!(out, b("fn main() {}\n"));
}

#[test]
fn unselected_file_is_unchanged() {
    let f = SourceFile {
        path: b("/r/readme.md"),
        content: b("see #[git] for source"),
    };
    let out = process_file(&f, &facts(), LinkTemplate::PlainLink).unwrap();
    assert_eq!(out, b("see #[git] for source"));
}

#[test]
fn run_rewrites_selected_and_keeps_the_rest() {
    let files = vec![
        SourceFile { path: b("/r/a.rs"), content: b("#[git]") },
        SourceFile { path: b("/r/b.txt"), content: b("#[git]") },
        SourceFile { path: b("/r/sub/c.rs"), content: b("no token") },
    ];
    let out = run(&files, &facts(), LinkTemplate::PlainLink).unwrap();
    assert_eq!(out.len(), 3);
    assert_eq!(s(&out[0].path), "/r/a.rs");
    assert_eq!(s(&out[0].content), "https://host/org/repo/tree/main/a.rs");
    assert_eq!(s(&out[1].content), "#[git]");
    assert_eq!(s(&out[2].content), "no token");
}

#[test]
fn second_run_changes_nothing() {
    let files = vec![
        SourceFile { path: b("/r/a.rs"), content: b("x #[git] y #[git]") },
        SourceFile { path: b("/r/b.rs"), content: b("plain") },
    ];
    let once = run(&files, &facts(), LinkTemplate::PlainLink).unwrap();
    let twice = run(&once, &facts(), LinkTemplate::PlainLink).unwrap();
    assert_eq!(once.len(), twice.len());
    for (a, c) in once.iter().zip(twice.iter()) {
        assert_eq!(a.path, c.path);
        assert_eq!(a.content, c.content);
    }
}

#[test]
fn run_fails_fast_without_remote() {
    let files = vec![
        SourceFile { path: b("/r/plain.txt"), content: b("#[git]") },
        SourceFile { path: b("/r/a.rs"), content: b("#[git]") },
    ];
    let f = RepoFacts { root: b("/r"), remote: None, branch: Some(b("main")) };
    assert_eq!(run(&files, &f, LinkTemplate::PlainLink).err(), Some(RunError::NoRemote));
}

#[test]
fn run_fails_without_branch() {
    let files = vec![SourceFile { path: b("/r/a.rs"), content: b("#[git]") }];
    let f = RepoFacts { root: b("/r"), remote: Some(b("u")), branch: None };
    assert_eq!(run(&files, &f, LinkTemplate::PlainLink).err(), Some(RunError::NoBranch));
}

#[test]
fn run_fails_on_file_outside_root() {
    let files = vec![SourceFile { path: b("/elsewhere/a.rs"), content: b("") }];
    assert_eq!(
        run(&files, &facts(), LinkTemplate::PlainLink).err(),
        Some(RunError::FileOutsideRoot)
    );
}

#[test]
fn run_on_empty_tree_yields_empty_tree() {
    let files: Vec<SourceFile> = Vec::new();
    let f = RepoFacts { root: b("/r"), remote: None, branch: None };
    let out = run(&files, &f, LinkTemplate::PlainLink).unwrap();
    assert!(out.is_empty());
}

#[test]
fn url_without_suffix_is_kept() {
    assert_eq!(s(&strip_git_suffix(&b("https://host/org/repo"))), "https://host/org/repo");
    assert_eq!(s(&strip_git_suffix(&b(".git"))), "");
    assert_eq!(s(&strip_git_suffix(&b("x.git.git"))), "x.git");
    assert_eq!(s(&strip_git_suffix(&b("git"))), "git");
}

#[test]
fn extension_filter() {
    assert!(should_process(true, &b("/r/a.rs")));
    assert!(should_process(true, &b(".rs")));
    assert!(!should_process(true, &b("/r/a.rsx")));
    assert!(!should_process(true, &b("/r/ars")));
    assert!(!should_process(true, &b("")));
    assert!(!should_process(false, &b("/r/a.rs")));
}

#[test]
fn relative_paths() {
    assert_eq!(relative_to_root(&b("/r/a.rs"), &b("/r")).map(|v| s(&v)), Some("a.rs".into()));
    assert_eq!(relative_to_root(&b("/rx/a.rs"), &b("/r")), None);
    assert_eq!(relative_to_root(&b("/r"), &b("/r")), None);
    assert_eq!(relative_to_root(&b("/q/a.rs"), &b("/r")), None);
}

#[test]
fn query_interpretation() {
    assert_eq!(
        interpret_root_query(true, &b("  /top/level\n")).map(|v| s(&v)),
        Ok("/top/level".into())
    );
    assert_eq!(interpret_root_query(false, &b("ignored")), Err(RunError::NotARepository));
    assert_eq!(interpret_optional_query(true, &b("main\n")).map(|v| s(&v)), Some("main".into()));
    assert_eq!(interpret_optional_query(false, &b("")), None);
}

#[test]
fn trimming() {
    assert_eq!(s(&trim_ascii(&b(" \t\r\nmain\n "))), "main");
    assert_eq!(s(&trim_ascii(&b(""))), "");
    assert_eq!(s(&trim_ascii(&b(" \n\t "))), "");
    assert_eq!(s(&trim_ascii(&b("a b"))), "a b");
}

#[test]
fn byte_string_helpers() {
    assert!(ends_with(&b("main.rs"), &b(".rs")));
    assert!(ends_with(&b(""), &b("")));
    assert!(!ends_with(&b("rs"), &b(".rs")));
    assert_eq!(s(&sub_bytes(&b("abcdef"), 1, 4)), "bcd");
}

#[test]
fn replacement_of_adjacent_and_overlapping_tokens() {
    let out = replace_all(&b("#[git]#[git]"), &b("#[git]"), &b("L"));
    assert_eq!(s(&out), "LL");
    let out = replace_all(&b("##[git]]"), &b("#[git]"), &b("L"));
    assert_eq!(s(&out), "#L]");
    let out = replace_all(&b("#[gi"), &b("#[git]"), &b("L"));
    assert_eq!(s(&out), "#[gi");
}
