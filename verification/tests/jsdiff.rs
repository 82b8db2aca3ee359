use pi_rs_host::jsdiff::{create_two_files_patch, diff_lines, diff_words, Change, HeaderOptions};

fn side(changes: &[Change], new_side: bool) -> String {
    changes
        .iter()
        .filter(|c| if new_side { !c.removed } else { !c.added })
        .map(|c| c.value.as_str())
        .collect()
}

fn shape(changes: &[Change]) -> Vec<(String, usize, bool, bool)> {
    changes.iter().map(|c| (c.value.clone(), c.count, c.added, c.removed)).collect()
}

#[test]
fn diff_lines_empty_texts_give_no_changes() {
    let changes = diff_lines("", "").ok().unwrap();
    assert!(changes.is_empty());
}

#[test]
fn diff_lines_identical_texts_are_one_kept_run() {
    let changes = diff_lines("a\nb\n", "a\nb\n").ok().unwrap();
    assert_eq!(shape(&changes), vec![("a\nb\n".to_owned(), 2, false, false)]);
}

#[test]
fn diff_lines_replacement_removes_then_adds() {
    let changes = diff_lines("a\n", "b\n").ok().unwrap();
    assert_eq!(
        shape(&changes),
        vec![("a\n".to_owned(), 1, false, true), ("b\n".to_owned(), 1, true, false)]
    );
}

#[test]
fn diff_lines_sides_spell_the_inputs() {
    let old = "one\ntwo\nthree\nfour";
    let new = "zero\none\nthree\nfour\nfive\n";
    let changes = diff_lines(old, new).ok().unwrap();
    assert_eq!(side(&changes, false), old);
    assert_eq!(side(&changes, true), new);
    assert!(changes.iter().all(|c| c.count > 0 && !(c.added && c.removed)));
}

#[test]
fn diff_lines_keeps_common_middle() {
    let changes = diff_lines("a\nb\nc\n", "a\nx\nc\n").ok().unwrap();
    assert_eq!(
        shape(&changes),
        vec![
            ("a\n".to_owned(), 1, false, false),
            ("b\n".to_owned(), 1, false, true),
            ("x\n".to_owned(), 1, true, false),
            ("c\n".to_owned(), 1, false, false),
        ]
    );
}

#[test]
fn diff_words_dedupes_whitespace_around_a_replacement() {
    let changes = diff_words("hello world", "hello there").ok().unwrap();
    assert_eq!(
        shape(&changes),
        vec![
            ("hello ".to_owned(), 1, false, false),
            ("world".to_owned(), 1, false, true),
            ("there".to_owned(), 1, true, false),
        ]
    );
}

#[test]
fn diff_words_identical_text_is_kept() {
    let changes = diff_words("same words here", "same words here").ok().unwrap();
    assert_eq!(changes.len(), 1);
    assert!(!changes[0].added && !changes[0].removed);
    assert_eq!(changes[0].value, "same words here");
}

#[test]
fn diff_words_counts_cover_both_sides() {
    let changes = diff_words("a b c", "a x c d").ok().unwrap();
    assert!(changes.iter().all(|c| c.count > 0 && !(c.added && c.removed)));
    let old_tokens: usize = changes.iter().filter(|c| !c.added).map(|c| c.count).sum();
    let new_tokens: usize = changes.iter().filter(|c| !c.removed).map(|c| c.count).sum();
    assert_eq!(old_tokens, 3);
    assert_eq!(new_tokens, 4);
}

#[test]
fn patch_with_file_headers_only() {
    let patch = create_two_files_patch("a.txt", "a.txt", "a\n", "b\n", 4, HeaderOptions::FileHeadersOnly)
        .ok()
        .unwrap();
    assert_eq!(patch, "--- a.txt\n+++ a.txt\n@@ -1,1 +1,1 @@\n-a\n+b\n");
}

#[test]
fn patch_with_full_headers_and_context() {
    let patch = create_two_files_patch("f", "f", "1\n2\n3\n", "1\n2x\n3\n", 1, HeaderOptions::Include)
        .ok()
        .unwrap();
    let underline = "=".repeat(67);
    assert_eq!(
        patch,
        format!("Index: f\n{underline}\n--- f\n+++ f\n@@ -1,3 +1,3 @@\n 1\n-2\n+2x\n 3\n")
    );
}

#[test]
fn patch_marks_missing_final_newline() {
    let patch = create_two_files_patch("o", "n", "x", "y", 4, HeaderOptions::Omit).ok().unwrap();
    assert_eq!(
        patch,
        "@@ -1,1 +1,1 @@\n-x\n\\ No newline at end of file\n+y\n\\ No newline at end of file\n"
    );
}

#[test]
fn patch_of_equal_texts_has_only_headers() {
    let patch = create_two_files_patch("a", "b", "same\n", "same\n", 4, HeaderOptions::FileHeadersOnly)
        .ok()
        .unwrap();
    assert_eq!(patch, "--- a\n+++ b\n");
}

#[test]
fn patch_with_no_lines_is_a_newline() {
    let patch = create_two_files_patch("a", "b", "", "", 4, HeaderOptions::Omit).ok().unwrap();
    assert_eq!(patch, "\n");
}

#[test]
fn patch_of_empty_old_text_starts_at_zero() {
    let patch = create_two_files_patch("a", "a", "", "new\n", 4, HeaderOptions::Omit).ok().unwrap();
    assert_eq!(patch, "@@ -0,0 +1,1 @@\n+new\n");
}

#[test]
fn diff_words_one_sided_and_equal_texts_succeed() {
    let only_new = diff_words("", "foo bar").ok().unwrap();
    assert!(only_new.iter().all(|c| c.added));
    assert_eq!(side(&only_new, true), "foo bar");
    let only_old = diff_words("foo bar", "").ok().unwrap();
    assert!(only_old.iter().all(|c| c.removed));
    let same = diff_words("foo  bar", "foo  bar").ok().unwrap();
    assert!(same.iter().all(|c| !c.added && !c.removed));
}

#[test]
fn identical_texts_give_only_the_header() {
    let patch = create_two_files_patch("a", "b", "x\ny\n", "x\ny\n", 4, HeaderOptions::FileHeadersOnly).ok().unwrap();
    assert_eq!(patch, "--- a\n+++ b\n");
}

#[test]
fn line_counts_match_values() {
    let d = diff_lines("a\nb", "a\nb\n").ok().unwrap();
    for c in &d {
        assert_eq!(c.count, c.value.split_inclusive('\n').count());
    }
    for w in d.windows(2) {
        assert!((w[0].added, w[0].removed) != (w[1].added, w[1].removed));
    }
}

#[test]
fn patch_merges_blocks_two_contexts_apart() {
    let patch = create_two_files_patch("o", "n", "x\na\nb\nc\nd\ny\n", "x\nA\nb\nc\nD\ny\n", 1, HeaderOptions::FileHeadersOnly)
        .ok()
        .unwrap();
    assert_eq!(patch, "--- o\n+++ n\n@@ -1,6 +1,6 @@\n x\n-a\n+A\n b\n c\n-d\n+D\n y\n");
}

#[test]
fn patch_marks_missing_final_newlines() {
    let patch = create_two_files_patch("o", "n", "a", "b", 4, HeaderOptions::Omit).ok().unwrap();
    assert_eq!(patch, "@@ -1,1 +1,1 @@\n-a\n\\ No newline at end of file\n+b\n\\ No newline at end of file\n");
}

#[test]
fn patch_of_an_insertion_into_nothing() {
    let patch = create_two_files_patch("a", "b", "", "x\n", 4, HeaderOptions::Omit).ok().unwrap();
    assert_eq!(patch, "@@ -0,0 +1,1 @@\n+x\n");
}
