use sha2::Digest;
use pi_rs_host::packages::{
    base_dir_for_scope, git_install_root, is_local_path, managed_npm_install_path, npm_install_root,
    package_identity, parse_git_url, parse_source, path_join, resolve_path_from_base, temporary_dir,
    NpmSource, ParsedSource, Scope,
};

#[test]
fn scope_names() {
    assert_eq!(Scope::User.name(), "user");
    assert_eq!(Scope::Project.name(), "project");
    assert_eq!(Scope::Temporary.name(), "temporary");
}

#[test]
fn local_path_detection() {
    assert!(is_local_path("./ext"));
    assert!(is_local_path("/abs/path"));
    assert!(!is_local_path("npm:pkg"));
    assert!(!is_local_path("  git:github.com/a/b"));
    assert!(!is_local_path("https://github.com/a/b"));
    assert!(!is_local_path("ssh://git@host/a/b"));
    assert!(!is_local_path("github:a/b"));
}

#[test]
fn npm_sources_split_name_and_version() {
    match parse_source("npm:left-pad@1.3.0") {
        ParsedSource::Npm(n) => {
            assert_eq!(n.spec, "left-pad@1.3.0");
            assert_eq!(n.name, "left-pad");
            assert!(n.pinned);
        }
        _ => panic!("expected npm"),
    }
    match parse_source("npm: @scope/pkg@^2 ") {
        ParsedSource::Npm(n) => {
            assert_eq!(n.spec, "@scope/pkg@^2");
            assert_eq!(n.name, "@scope/pkg");
            assert!(n.pinned);
        }
        _ => panic!("expected npm"),
    }
    match parse_source("npm:@scope/pkg") {
        ParsedSource::Npm(n) => {
            assert_eq!(n.name, "@scope/pkg");
            assert!(!n.pinned);
        }
        _ => panic!("expected npm"),
    }
    match parse_source("npm:@scope") {
        ParsedSource::Npm(n) => {
            assert_eq!(n.name, "@scope");
            assert!(!n.pinned);
        }
        _ => panic!("expected npm"),
    }
    match parse_source("npm:foo@") {
        ParsedSource::Npm(n) => {
            assert_eq!(n.name, "foo@");
            assert!(!n.pinned);
        }
        _ => panic!("expected npm"),
    }
}

#[test]
fn git_urls_and_refs() {
    let g = parse_git_url("https://github.com/user/repo.git@v1.2").unwrap();
    assert_eq!(g.repo, "https://github.com/user/repo.git");
    assert_eq!(g.host, "github.com");
    assert_eq!(g.path, "user/repo");
    assert_eq!(g.reference.as_deref(), Some("v1.2"));
    assert!(g.pinned);

    let g = parse_git_url("git:git@github.com:user/repo#main").unwrap();
    assert_eq!(g.repo, "git@github.com:user/repo");
    assert_eq!(g.host, "github.com");
    assert_eq!(g.path, "user/repo");
    assert_eq!(g.reference.as_deref(), Some("main"));

    let g = parse_git_url("git:github.com/user/repo").unwrap();
    assert_eq!(g.repo, "https://github.com/user/repo");
    assert_eq!(g.host, "github.com");
    assert_eq!(g.path, "user/repo");
    assert!(g.reference.is_none());
    assert!(!g.pinned);

    let g = parse_git_url("ssh://me@host.example/team/project").unwrap();
    assert_eq!(g.host, "host.example");
    assert_eq!(g.path, "team/project");

    assert!(parse_git_url("github.com/user/repo").is_none());
    assert!(parse_git_url("git:nodot/user/repo").is_none());
    assert!(parse_git_url("https://github.com/onlyone").is_none());
    assert!(parse_git_url("https://github.com/a/../b").is_none());
    assert!(parse_git_url("https://github.com/a/%2e%2e/b").is_none());
    assert!(parse_git_url("https://github.com/a/%zz").is_none());
    assert!(parse_git_url("git:localhost/a/b").is_some());
}

#[test]
fn parse_source_falls_back_to_local() {
    match parse_source("./pkg") {
        ParsedSource::Local(l) => assert_eq!(l.path, "./pkg"),
        _ => panic!("expected local"),
    }
    match parse_source("https://example.com/only") {
        ParsedSource::Local(l) => assert_eq!(l.path, "https://example.com/only"),
        _ => panic!("expected local"),
    }
    match parse_source("git:github.com/a/b@v2") {
        ParsedSource::Git(g) => assert_eq!(g.reference.as_deref(), Some("v2")),
        _ => panic!("expected git"),
    }
}

#[test]
fn path_join_follows_pathbuf() {
    assert_eq!(path_join("/a", "b"), "/a/b");
    assert_eq!(path_join("/a/", "b"), "/a/b");
    assert_eq!(path_join("/a", "/b"), "/b");
    assert_eq!(path_join("", "b"), "b");
    assert_eq!(path_join("/a", ""), "/a/");
}

#[test]
fn resolve_path_from_base_expands_and_normalizes() {
    assert_eq!(resolve_path_from_base("~", "/base", "/home/u"), "/home/u");
    assert_eq!(resolve_path_from_base(" ~/x/../y ", "/base", "/home/u"), "/home/u/y");
    assert_eq!(resolve_path_from_base("file:///etc/./x", "/base", "/home/u"), "/etc/x");
    assert_eq!(resolve_path_from_base("rel/./p", "/base/dir", "/h"), "/base/dir/rel/p");
    assert_eq!(resolve_path_from_base("../up", "/base/dir", "/h"), "/base/up");
    assert_eq!(resolve_path_from_base("/../x", "/b", "/h"), "/x");
    assert_eq!(resolve_path_from_base("/..", "/base", "/h"), "/");
    assert_eq!(resolve_path_from_base("../../x", "b", "/h"), "../x");
}

#[test]
fn install_roots() {
    assert_eq!(npm_install_root(Scope::Project, false, "/proj", "/agent"), "/proj/.pi/npm");
    assert_eq!(npm_install_root(Scope::User, false, "/proj", "/agent"), "/agent/npm");
    assert_eq!(git_install_root(Scope::Project, "/proj", "/agent").as_deref(), Some("/proj/.pi/git"));
    assert_eq!(git_install_root(Scope::User, "/proj", "/agent").as_deref(), Some("/agent/git"));
    assert!(git_install_root(Scope::Temporary, "/proj", "/agent").is_none());
    assert_eq!(base_dir_for_scope(Scope::Project, "/proj", "/agent"), "/proj/.pi");
    assert_eq!(base_dir_for_scope(Scope::User, "/proj", "/agent"), "/agent");
    assert_eq!(base_dir_for_scope(Scope::Temporary, "/proj", "/agent"), "/proj");
    let src = NpmSource { spec: "x@1".to_owned(), name: "x".to_owned(), pinned: true };
    assert_eq!(managed_npm_install_path(&src, Scope::User, "/proj", "/agent"), "/agent/npm/node_modules/x");
}

#[test]
fn temporary_dirs_are_digest_named() {
    let dir = temporary_dir("/agent", "npm", None);
    assert!(dir.starts_with("/agent/tmp/extensions/npm/"));
    let digest = &dir["/agent/tmp/extensions/npm/".len()..dir.len() - 1];
    assert_eq!(digest.len(), 8);
    assert!(digest.chars().all(|c| c.is_ascii_hexdigit() && !c.is_ascii_uppercase()));
    assert!(dir.ends_with('/'));
    // sha256("npm-") starts with these bytes.
    let hash = sha2::Sha256::digest(b"npm-");
    let want: String = hash.iter().take(4).map(|b| format!("{b:02x}")).collect();
    assert_eq!(digest, want);
    assert_eq!(npm_install_root(Scope::Temporary, false, "/p", "/agent"), dir);
    let with_suffix = temporary_dir("/agent", "git-h", Some("a/b"));
    assert!(with_suffix.ends_with("/a/b"));
}

#[test]
fn identities_ignore_versions() {
    let a = parse_source("npm:pkg@1");
    let b = parse_source("npm:pkg@2");
    assert_eq!(
        package_identity(&a, Scope::User, "/p", "/agent", "/h"),
        package_identity(&b, Scope::User, "/p", "/agent", "/h")
    );
    assert_eq!(package_identity(&a, Scope::User, "/p", "/agent", "/h"), "npm:pkg");
    let g1 = parse_source("git:git@github.com:u/r@v1");
    let g2 = parse_source("https://github.com/u/r.git");
    assert_eq!(package_identity(&g1, Scope::User, "/p", "/a", "/h"), "git:github.com/u/r");
    assert_eq!(package_identity(&g2, Scope::User, "/p", "/a", "/h"), "git:github.com/u/r");
    let l = parse_source("./ext");
    assert_eq!(package_identity(&l, Scope::Project, "/p", "/a", "/h"), "local:/p/.pi/ext");
}
