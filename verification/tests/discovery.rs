use pi_rs_host::discovery::{
    collect_auto_extension_entries, collect_files, collect_flat_entries, collect_skill_entries, glob_expand,
    resolve_extension_entries, FsEntry,
};

fn file(name: &str) -> FsEntry {
    FsEntry { name: name.to_string(), is_dir: false, is_file: true, entries: None, extension_entries: None }
}

fn dir(name: &str, entries: Vec<FsEntry>) -> FsEntry {
    FsEntry { name: name.to_string(), is_dir: true, is_file: false, entries: Some(entries), extension_entries: None }
}

fn strings(v: &[&str]) -> Vec<String> {
    v.iter().map(|s| s.to_string()).collect()
}

#[test]
fn collect_files_walks_in_name_order_and_skips_hidden() {
    let listing = vec![
        dir("sub", vec![file("x.ts"), file("y.js")]),
        file("b.ts"),
        file(".hidden.ts"),
        dir("node_modules", vec![file("dep.ts")]),
        file("readme.md"),
        file("a.ts"),
    ];
    let r = collect_files("/r", &listing, ".ts");
    assert_eq!(r, strings(&["/r/a.ts", "/r/b.ts", "/r/sub/x.ts"]));
}

#[test]
fn collect_files_unreadable_folder_gives_nothing() {
    let unreadable = FsEntry { name: "locked".to_string(), is_dir: true, is_file: false, entries: None, extension_entries: None };
    let listing = vec![unreadable, file("z.ts")];
    assert_eq!(collect_files("/r/", &listing, ".ts"), strings(&["/r/z.ts"]));
}

#[test]
fn collect_skill_entries_root_markdown_and_skill_folders() {
    let listing = vec![
        dir("skill2", vec![dir("nested", vec![file("SKILL.md")])]),
        dir("skill1", vec![file("other.md"), file("SKILL.md")]),
        file("notes.md"),
        file("notes.txt"),
    ];
    let r = collect_skill_entries("/s", &listing, true);
    assert_eq!(r, strings(&["/s/notes.md", "/s/skill1/SKILL.md", "/s/skill2/nested/SKILL.md"]));
}

#[test]
fn collect_skill_entries_below_root_ignores_loose_markdown() {
    let listing = vec![file("loose.md"), dir("deep", vec![file("SKILL.md")])];
    let r = collect_skill_entries("/s/x", &listing, false);
    assert_eq!(r, strings(&["/s/x/deep/SKILL.md"]));
}

#[test]
fn resolve_extension_entries_prefers_existing_manifest_entries() {
    let manifest = vec![("a.lua".to_string(), true), ("b.lua".to_string(), false)];
    assert_eq!(resolve_extension_entries("/e", Some(&manifest), true), Some(strings(&["/e/a.lua"])));
    let missing = vec![("b.lua".to_string(), false)];
    assert_eq!(resolve_extension_entries("/e", Some(&missing), true), Some(strings(&["/e/init.lua"])));
    assert_eq!(resolve_extension_entries("/e", None, false), None);
}

#[test]
fn collect_auto_extension_entries_uses_own_or_walks() {
    let own = strings(&["/x/main.lua"]);
    assert_eq!(collect_auto_extension_entries("/x", Some(&own), &vec![file("a.lua")]), own);
    let mut with_entries = dir("pkg", vec![]);
    with_entries.extension_entries = Some(strings(&["/x/pkg/init.lua"]));
    let listing = vec![with_entries, file("b.lua"), file("a.lua"), file("c.txt"), file(".h.lua")];
    let r = collect_auto_extension_entries("/x", None, &listing);
    assert_eq!(r, strings(&["/x/a.lua", "/x/b.lua", "/x/pkg/init.lua"]));
}

#[test]
fn glob_expand_matches_one_segment_in_listing_order() {
    let listing = Some(vec![file("b.lua"), file("a.txt"), file("a.lua")]);
    assert_eq!(glob_expand("/g", &listing, "*.lua"), strings(&["/g/b.lua", "/g/a.lua"]));
    assert_eq!(glob_expand("/g", &None, "*.lua"), Vec::<String>::new());
}

#[test]
fn glob_expand_descends_matching_folders() {
    let listing = Some(vec![dir("ext", vec![file("one.lua"), file("two.md")])]);
    assert_eq!(glob_expand("/g", &listing, "ext\\*.lua"), strings(&["/g/ext/one.lua"]));
}

#[test]
fn collect_flat_entries_only_top_level_with_extension() {
    let listing = vec![
        file("b.md"),
        file("a.md"),
        file(".x.md"),
        file("c.txt"),
        dir("d.md", vec![file("e.md")]),
    ];
    assert_eq!(collect_flat_entries("/p", &listing, "md"), strings(&["/p/a.md", "/p/b.md"]));
}
