use pi_rs_host::packages::Scope;
use pi_rs_host::resource_loader::{
    apply_patterns, apply_selectors, file_pattern, glob_match, is_enabled_by_overrides, is_override_pattern,
    is_pattern, matches_any_exact_pattern, matches_any_pattern, normalize_exact_pattern, precedence_rank,
    rel_path, simple_suffix_match, split_patterns, to_resolved, Accumulator, IgnoreMatcher, Origin,
    PathMetadata, ResolvedPaths, ResolvedResource, ResourceType,
};
use pi_rs_host::text::lines_chars;

fn strings(v: &[&str]) -> Vec<String> {
    v.iter().map(|s| s.to_string()).collect()
}

fn meta(source: &str, scope: Scope, origin: Origin, base: Option<&str>) -> PathMetadata {
    PathMetadata { source: source.to_string(), scope, origin, base_dir: base.map(|b| b.to_string()) }
}

fn resource(path: &str, source: &str, scope: Scope, origin: Origin) -> ResolvedResource {
    ResolvedResource { path: path.to_string(), enabled: true, metadata: meta(source, scope, origin, None) }
}

#[test]
fn kind_names_and_patterns() {
    let names: Vec<&str> = ResourceType::all().iter().map(|k| k.name()).collect();
    assert_eq!(names, vec!["extensions", "skills", "prompts", "themes"]);
    assert_eq!(file_pattern(ResourceType::Extensions), ".lua");
    assert_eq!(file_pattern(ResourceType::Themes), ".json");
    assert!(simple_suffix_match(".md", "SKILL.md"));
    assert!(!simple_suffix_match(".md", "md"));
}

#[test]
fn precedence_ranks() {
    assert_eq!(precedence_rank(&meta("local", Scope::Project, Origin::TopLevel, None)), 0);
    assert_eq!(precedence_rank(&meta("auto", Scope::Project, Origin::TopLevel, None)), 1);
    assert_eq!(precedence_rank(&meta("local", Scope::User, Origin::TopLevel, None)), 2);
    assert_eq!(precedence_rank(&meta("auto", Scope::User, Origin::TopLevel, None)), 3);
    assert_eq!(precedence_rank(&meta("npm:x", Scope::Project, Origin::Package, None)), 4);
}

#[test]
fn globs() {
    assert!(glob_match("*.lua", "a.lua"));
    assert!(!glob_match("*.lua", "dir/a.lua"));
    assert!(glob_match("**/*.lua", "dir/sub/a.lua"));
    assert!(glob_match("**/*.lua", "a.lua"));
    assert!(glob_match("**/*.lua", "x/y/a.lua"));
    assert!(glob_match("src/**/*.rs", "src/a.rs"));
    assert!(glob_match("a?c", "abc"));
    assert!(!glob_match("a?c", "a/c"));
    assert!(glob_match("skills/**", "skills/x/SKILL.md"));
}

#[test]
fn relative_paths() {
    assert_eq!(rel_path("/root", "/root/a/b.md"), "a/b.md");
    assert_eq!(rel_path("/other", "/root/a/b.md"), "/root/a/b.md");
    assert_eq!(rel_path("/root", "/root"), "");
}

#[test]
fn pattern_kinds() {
    assert!(is_override_pattern("!x"));
    assert!(is_override_pattern("+x"));
    assert!(!is_override_pattern("x*"));
    assert!(is_pattern("x*"));
    assert!(is_pattern("a?"));
    assert!(!is_pattern("plain/path"));
    let (plain, patterns) = split_patterns(&strings(&["a", "b*", "!c", "d"]));
    assert_eq!(plain, strings(&["a", "d"]));
    assert_eq!(patterns, strings(&["b*", "!c"]));
}

#[test]
fn glob_patterns_match_relative_name_or_skill_folder() {
    let base = "/proj/.pi";
    assert!(matches_any_pattern("/proj/.pi/ext/a.lua", &strings(&["ext/*.lua"]), base));
    assert!(matches_any_pattern("/proj/.pi/ext/a.lua", &strings(&["a.lua"]), base));
    assert!(!matches_any_pattern("/proj/.pi/ext/a.lua", &strings(&["b.lua"]), base));
    assert!(matches_any_pattern("/proj/.pi/skills/review/SKILL.md", &strings(&["review"]), base));
    assert!(matches_any_pattern("/proj/.pi/skills/review/SKILL.md", &strings(&["skills/review"]), base));
    assert!(!matches_any_pattern("/proj/.pi/prompts/review/NOTES.md", &strings(&["review"]), base));
    assert!(!matches_any_pattern("/proj/.pi/ext/a.lua", &Vec::new(), base));
}

#[test]
fn exact_patterns() {
    let base = "/proj/.pi";
    assert_eq!(normalize_exact_pattern("./ext\\a.lua"), "ext/a.lua");
    assert!(matches_any_exact_pattern("/proj/.pi/ext/a.lua", &strings(&["./ext/a.lua"]), base));
    assert!(matches_any_exact_pattern("/proj/.pi/ext/a.lua", &strings(&["/proj/.pi/ext/a.lua"]), base));
    assert!(!matches_any_exact_pattern("/proj/.pi/ext/a.lua", &strings(&["a.lua"]), base));
    assert!(matches_any_exact_pattern("/proj/.pi/skills/review/SKILL.md", &strings(&["skills/review"]), base));
    assert!(matches_any_exact_pattern("/proj/.pi/skills/review/SKILL.md", &strings(&["elsewhere/review"]), base));
    assert!(!matches_any_exact_pattern("/proj/.pi/ext/a.lua", &Vec::new(), base));
}

#[test]
fn apply_patterns_includes_excludes_and_forces() {
    let base = "/b";
    let all = strings(&["/b/x.lua", "/b/y.lua", "/b/z.md"]);
    let mut kept = apply_patterns(&all, &strings(&["*.lua"]), base);
    kept.sort();
    assert_eq!(kept, strings(&["/b/x.lua", "/b/y.lua"]));
    let mut kept = apply_patterns(&all, &strings(&["!y.lua"]), base);
    kept.sort();
    assert_eq!(kept, strings(&["/b/x.lua", "/b/z.md"]));
    let mut kept = apply_patterns(&all, &strings(&["*.lua", "+z.md", "-x.lua"]), base);
    kept.sort();
    assert_eq!(kept, strings(&["/b/y.lua", "/b/z.md"]));
    let dup = strings(&["/b/x.lua", "/b/x.lua"]);
    assert_eq!(apply_patterns(&dup, &Vec::new(), base), strings(&["/b/x.lua"]));
}

#[test]
fn overrides_toggle_enabled() {
    let base = "/b";
    assert!(is_enabled_by_overrides("/b/x.lua", &strings(&["plain*"]), base));
    assert!(!is_enabled_by_overrides("/b/x.lua", &strings(&["!x.lua"]), base));
    assert!(is_enabled_by_overrides("/b/x.lua", &strings(&["!x.lua", "+x.lua"]), base));
    assert!(!is_enabled_by_overrides("/b/x.lua", &strings(&["+x.lua", "-x.lua"]), base));
}

#[test]
fn lines_follow_str_lines() {
    for text in ["", "a", "a\n", "a\r\nb", "a\n\nb\r", "x\r\n\r\n"] {
        let got: Vec<String> = lines_chars(&text.chars().collect()).iter().map(|l| l.iter().collect()).collect();
        let want: Vec<String> = text.lines().map(|l| l.to_string()).collect();
        assert_eq!(got, want, "{text:?}");
    }
}

#[test]
fn ignore_rules() {
    let mut ig = IgnoreMatcher::new();
    ig.add_file("/r", "/r", &strings(&["# comment\n\nnode_modules/\n*.log\n!keep.log\n/build\n"]));
    assert!(ig.ignores("node_modules", true));
    assert!(!ig.ignores("node_modules", false));
    assert!(ig.ignores("debug.log", false));
    assert!(!ig.ignores("keep.log", false));
    assert!(ig.ignores("build", false));
    assert!(!ig.ignores("src/main.lua", false));
    ig.add_file("/r/sub", "/r", &strings(&["secret.lua"]));
    assert!(ig.ignores("sub/secret.lua", false));
    assert!(!ig.ignores("secret.lua", false));
}

#[test]
fn resolution_orders_by_precedence_and_keeps_first_canonical() {
    let resources = vec![
        resource("/pkg/a.lua", "npm:x", Scope::User, Origin::Package),
        resource("/user/a.lua", "auto", Scope::User, Origin::TopLevel),
        resource("/proj/a.lua", "local", Scope::Project, Origin::TopLevel),
        resource("/link/a.lua", "auto", Scope::Project, Origin::TopLevel),
    ];
    let canonical = strings(&["/pkg/a.lua", "/user/a.lua", "/proj/a.lua", "/proj/a.lua"]);
    let resolved = to_resolved(resources, &canonical);
    let paths: Vec<&str> = resolved.iter().map(|r| r.path.as_str()).collect();
    assert_eq!(paths, vec!["/proj/a.lua", "/user/a.lua", "/pkg/a.lua"]);
}

#[test]
fn accumulator_gathers_each_path_once() {
    let mut acc = Accumulator::new();
    acc.add(ResourceType::Skills, "/s/SKILL.md", meta("auto", Scope::User, Origin::TopLevel, None), true);
    acc.add(ResourceType::Skills, "/s/SKILL.md", meta("local", Scope::Project, Origin::TopLevel, None), false);
    acc.add(ResourceType::Skills, "", meta("local", Scope::Project, Origin::TopLevel, None), false);
    acc.add(ResourceType::Themes, "/t/dark.json", meta("auto", Scope::User, Origin::TopLevel, None), true);
    assert_eq!(acc.skills.len(), 1);
    assert_eq!(acc.skills[0].metadata.source, "auto");
    assert_eq!(acc.themes.len(), 1);
    let paths = acc.into_paths(&Vec::new(), &strings(&["/s/SKILL.md"]), &Vec::new(), &strings(&["/t/dark.json"]));
    assert_eq!(paths.skills.len(), 1);
    assert_eq!(paths.for_type(ResourceType::Themes).len(), 1);
    assert!(paths.for_type(ResourceType::Extensions).is_empty());
}

#[test]
fn selectors_toggle_by_exact_pattern() {
    let mut paths = ResolvedPaths {
        extensions: vec![
            ResolvedResource { path: "/b/x.lua".to_string(), enabled: true, metadata: meta("auto", Scope::User, Origin::TopLevel, Some("/b")) },
            ResolvedResource { path: "/b/y.lua".to_string(), enabled: false, metadata: meta("auto", Scope::User, Origin::TopLevel, Some("/b")) },
        ],
        skills: vec![],
        prompts: vec![],
        themes: vec![ResolvedResource { path: "/t/x.json".to_string(), enabled: true, metadata: meta("auto", Scope::User, Origin::TopLevel, None) }],
    };
    let selectors = vec![("extensions".to_string(), (strings(&["y.lua"]), strings(&["x.lua"])))];
    apply_selectors(&mut paths, &selectors);
    assert!(!paths.extensions[0].enabled);
    assert!(paths.extensions[1].enabled);
    assert!(paths.themes[0].enabled);
}

#[test]
fn overrides_agree_with_stripped_lists() {
    let base = "/b";
    let ps = strings(&["!*.md", "+docs/keep.md", "-docs/drop.md", "plain"]);
    let ex = strings(&["*.md"]);
    let fi = strings(&["docs/keep.md"]);
    let fx = strings(&["docs/drop.md"]);
    for file in ["/b/docs/keep.md", "/b/docs/other.md", "/b/docs/drop.md", "/b/a.txt"] {
        let expected = !matches_any_exact_pattern(file, &fx, base)
            && (matches_any_exact_pattern(file, &fi, base) || !matches_any_pattern(file, &ex, base));
        assert_eq!(is_enabled_by_overrides(file, &ps, base), expected, "{file}");
    }
    assert!(is_enabled_by_overrides("/b/docs/keep.md", &ps, base));
    assert!(!is_enabled_by_overrides("/b/docs/other.md", &ps, base));
    assert!(!is_enabled_by_overrides("/b/docs/drop.md", &ps, base));
    assert!(is_enabled_by_overrides("/b/a.txt", &ps, base));
}
