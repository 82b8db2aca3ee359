use pi_rs_host::git::{dirname, find_git_paths, head_state, is_local_path, parse_git_url, resolve_git_branch_sync, HeadState};

fn parsed(source: &str) -> Option<(String, String, String, Option<String>, bool)> {
    parse_git_url(source).map(|g| (g.repo, g.host, g.path, g.reference, g.pinned))
}

fn some(repo: &str, host: &str, path: &str, reference: Option<&str>) -> Option<(String, String, String, Option<String>, bool)> {
    Some((repo.to_string(), host.to_string(), path.to_string(), reference.map(|r| r.to_string()), reference.is_some()))
}

#[test]
fn local_paths() {
    assert!(is_local_path("./ext"));
    assert!(is_local_path("file:///x"));
    assert!(!is_local_path("  git:github.com/a/b"));
    assert!(!is_local_path("https://x"));
    assert!(!is_local_path("npm:pkg"));
}

#[test]
fn github_shorthand() {
    assert_eq!(parsed("git:github.com/user/repo"), some("https://github.com/user/repo", "github.com", "user/repo", None));
    assert_eq!(parsed("git:github.com/user/repo@v1.0"), some("https://github.com/user/repo", "github.com", "user/repo", Some("v1.0")));
    assert_eq!(parsed("git:github.com/user/repo#main"), some("https://github.com/user/repo#main", "github.com", "user/repo", Some("main")));
}

#[test]
fn https_url_keeps_its_scheme_and_drops_dot_git() {
    assert_eq!(
        parsed("https://github.com/user/repo.git"),
        some("https://github.com/user/repo.git", "github.com", "user/repo", None)
    );
    assert_eq!(parsed("HTTPS://gitlab.com/group/proj"), None);
    assert_eq!(parsed("https://gitlab.com/group/proj"), some("https://gitlab.com/group/proj", "gitlab.com", "group/proj", None));
}

#[test]
fn scp_form_with_ref() {
    assert_eq!(
        parsed("git:git@github.com:user/repo@main"),
        some("git@github.com:user/repo", "github.com", "user/repo", Some("main"))
    );
    assert_eq!(parsed("git@github.com:user/repo"), None);
}

#[test]
fn bare_domain_reads_as_github_user() {
    assert_eq!(parsed("git:example.com/repo"), some("https://example.com/repo", "github.com", "example.com/repo", None));
}

#[test]
fn generic_grammar() {
    assert_eq!(parsed("git:localhost/repo"), None);
    assert_eq!(parsed("git:localhost/a/b"), some("https://localhost/a/b", "localhost", "a/b", None));
    assert_eq!(parsed("https://localhost/a/b"), some("https://localhost/a/b", "localhost", "a/b", None));
    assert_eq!(parsed("git:noslash"), None);
    assert_eq!(parsed("npm:pkg"), None);
    assert_eq!(parsed("git:localhost/a/.."), None);
}

#[test]
fn dirnames() {
    assert_eq!(dirname("/a/b/"), "/a");
    assert_eq!(dirname("/a"), "/");
    assert_eq!(dirname("a"), ".");
    assert_eq!(dirname("///"), "/");
    assert_eq!(dirname(""), "/");
    assert_eq!(dirname("a//b"), "a/");
}

#[test]
fn head_branches() {
    assert!(matches!(head_state("ref: refs/heads/main\n"), HeadState::Branch(b) if b == "main"));
    assert!(matches!(head_state("ref: refs/heads/.invalid"), HeadState::AskGit));
    assert!(matches!(head_state("0123abcd"), HeadState::Detached));
    assert_eq!(resolve_git_branch_sync(Some("ref: refs/heads/feature/x\n"), None), Some("feature/x".to_string()));
    assert_eq!(resolve_git_branch_sync(Some("ref: refs/heads/.invalid"), Some("dev")), Some("dev".to_string()));
    assert_eq!(resolve_git_branch_sync(Some("ref: refs/heads/.invalid"), None), Some("detached".to_string()));
    assert_eq!(resolve_git_branch_sync(Some("ref: refs/tags/v1"), None), Some("detached".to_string()));
    assert_eq!(resolve_git_branch_sync(None, None), None);
}

#[test]
fn git_paths_walk_up() {
    let file_type = |p: &str| -> Option<String> {
        match p {
            "/repo/.git" => Some("dir".to_string()),
            "/repo/.git/HEAD" => Some("file".to_string()),
            "/wt/.git" => Some("file".to_string()),
            "/repo/.git/worktrees/wt/HEAD" => Some("file".to_string()),
            "/repo/.git/worktrees/wt/commondir" => Some("file".to_string()),
            _ => None,
        }
    };
    let read_file = |p: &str| -> Option<String> {
        match p {
            "/wt/.git" => Some("gitdir: /repo/.git/worktrees/wt\n".to_string()),
            "/repo/.git/worktrees/wt/commondir" => Some("../..\n".to_string()),
            _ => None,
        }
    };
    let resolve = |base: &str, p: &str| -> String {
        if p.starts_with('/') { p.to_string() } else { format!("{base}/{p}") }
    };
    let found = find_git_paths("/repo/sub/deeper", &read_file, &file_type, &resolve).unwrap();
    assert_eq!(found.repo_dir, "/repo");
    assert_eq!(found.common_git_dir, "/repo/.git");
    assert_eq!(found.head_path, "/repo/.git/HEAD");
    let linked = find_git_paths("/wt", &read_file, &file_type, &resolve).unwrap();
    assert_eq!(linked.repo_dir, "/wt");
    assert_eq!(linked.head_path, "/repo/.git/worktrees/wt/HEAD");
    assert_eq!(linked.common_git_dir, "/repo/.git/worktrees/wt/../..");
    assert!(find_git_paths("/elsewhere", &read_file, &file_type, &resolve).is_none());
}
