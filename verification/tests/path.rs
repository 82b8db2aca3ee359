use pi_rs_host::path::{basename, dirname, extname, join, normalize, relative, resolve};

fn s(parts: &[&str]) -> Vec<String> {
    parts.iter().map(|p| (*p).to_owned()).collect()
}

#[test]
fn normalize_matches_node() {
    assert_eq!(normalize("/foo/bar//baz/asdf/quux/.."), "/foo/bar/baz/asdf");
    assert_eq!(normalize(""), ".");
    assert_eq!(normalize("."), ".");
    assert_eq!(normalize("./"), "./");
    assert_eq!(normalize("/"), "/");
    assert_eq!(normalize("/.."), "/");
    assert_eq!(normalize("../a"), "../a");
    assert_eq!(normalize("a/../../b"), "../b");
    assert_eq!(normalize("a//b/"), "a/b/");
}

#[test]
fn join_matches_node() {
    assert_eq!(
        join(&s(&["/foo", "bar", "baz/asdf", "quux", ".."])),
        "/foo/bar/baz/asdf"
    );
    assert_eq!(join(&s(&[])), ".");
    assert_eq!(join(&s(&[""])), ".");
    assert_eq!(join(&s(&["a", "", "b"])), "a/b");
}

#[test]
fn dirname_matches_node() {
    assert_eq!(dirname("/foo/bar/baz/asdf/quux"), "/foo/bar/baz/asdf");
    assert_eq!(dirname("/a/b/"), "/a");
    assert_eq!(dirname("a"), ".");
    assert_eq!(dirname("/"), "/");
    assert_eq!(dirname(""), ".");
}

#[test]
fn basename_matches_node() {
    assert_eq!(basename("/foo/bar/baz/asdf/quux.html", None), "quux.html");
    assert_eq!(
        basename("/foo/bar/baz/asdf/quux.html", Some(".html")),
        "quux"
    );
    assert_eq!(basename("/a/b/", None), "b");
    assert_eq!(basename("/", None), "");
    assert_eq!(basename(".html", Some(".html")), ".html");
}

#[test]
fn extname_matches_node() {
    assert_eq!(extname("index.html"), ".html");
    assert_eq!(extname("index.coffee.md"), ".md");
    assert_eq!(extname("index."), ".");
    assert_eq!(extname("index"), "");
    assert_eq!(extname(".index"), "");
    assert_eq!(extname(".index.md"), ".md");
    assert_eq!(extname(".."), "");
}

#[test]
fn resolve_matches_node() {
    assert_eq!(resolve(&s(&["/foo/bar", "./baz"]), "/w"), "/foo/bar/baz");
    assert_eq!(resolve(&s(&["/foo/bar", "/tmp/file/"]), "/w"), "/tmp/file");
    assert_eq!(
        resolve(
            &s(&["wwwroot", "static_files/png/", "../gif/image.gif"]),
            "/home/myself/node"
        ),
        "/home/myself/node/wwwroot/static_files/gif/image.gif"
    );
    assert_eq!(resolve(&s(&[]), "/home/x"), "/home/x");
}

#[test]
fn relative_matches_node() {
    assert_eq!(
        relative("/data/orandea/test/aaa", "/data/orandea/impl/bbb", "/w"),
        "../../impl/bbb"
    );
    assert_eq!(relative("/a/b", "/a/b/c/d", "/w"), "c/d");
    assert_eq!(relative("/a/b", "/a/b", "/w"), "");
    assert_eq!(relative("/", "/a", "/w"), "a");
}

#[test]
fn dirname_of_double_root_child_keeps_both_slashes() {
    assert_eq!(dirname("//a"), "//");
    assert_eq!(dirname("a/b"), "a");
    assert_eq!(dirname("a/b//"), "a");
}

#[test]
fn resolve_relative_path_against_relative_cwd_stays_relative() {
    assert_eq!(resolve(&s(&["a", "b"]), "c"), "c/a/b");
    assert_eq!(resolve(&s(&["a", ""]), "/r"), "/r/a");
}

#[test]
fn relative_climbs_out_of_unrelated_trees() {
    assert_eq!(relative("/a/b/c", "/d", "/w"), "../../../d");
    assert_eq!(relative("x", "y", "/w"), "../y");
}

#[test]
fn normalize_keeps_the_root_and_is_never_empty() {
    for p in ["", "/", "//a/../..", "a/..", "../x/", "./", "/./b/"] {
        let n = normalize(p);
        assert!(!n.is_empty(), "{p}");
        assert_eq!(n.starts_with('/'), p.starts_with('/'), "{p}");
    }
}

#[test]
fn normalize_twice_is_normalize_once() {
    for p in ["", "/", "//a/../..", "a/..", "../x/", "./", "/./b/", "a//b/./c/../", "../../a/b/.."] {
        let n = normalize(p);
        assert_eq!(normalize(&n), n, "{p}");
    }
}

#[test]
fn relative_round_trips_through_resolve() {
    let cwd = "/home/u";
    let cases = [("/a/b/c", "/a/d"), ("x/y", "x"), ("/a", "/a/b/c/"), ("/", "/q"), ("a", "a/"), ("/a/b", "/c/d/e")];
    for (from, to) in cases {
        let rel = relative(from, to, cwd);
        let back = resolve(&[from.to_owned(), rel.clone()], cwd);
        assert_eq!(back, resolve(&[to.to_owned()], cwd), "{from} -> {to}");
        let same = resolve(&[from.to_owned()], cwd) == resolve(&[to.to_owned()], cwd);
        assert_eq!(rel.is_empty(), same, "{from} -> {to}");
    }
}
