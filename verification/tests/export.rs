use rgbuilder::export::{escape_label, node_diagram_id};
use rgbuilder::obsidian::{
    note_relpath, note_relpath_from_parts, obsidian_link_from_relpath, sanitize_path_component,
    sanitize_relpath, short_hash, strip_repo_prefix, MAX_NOTE_STEM_LEN,
};

#[test]
fn test_escape_label_quotes() {
    assert!(escape_label(r#"say "hi""#).contains("\\\""));
}

#[test]
fn escape_label_maps_each_special_character() {
    assert_eq!(escape_label("a\\b\"c\nd[e]"), "a\\\\b\\\"c d(e)");
    assert_eq!(escape_label(""), "");
}

#[test]
fn node_diagram_id_formats_index_and_safe_name() {
    assert_eq!(node_diagram_id(7, "foo-bar baz"), "n7_foo_bar_baz");
    assert_eq!(node_diagram_id(120, ""), "n120_");
    assert_eq!(
        node_diagram_id(0, "abcdefghijklmnopqrstuvwxyz"),
        "n0_abcdefghijklmnopqrst"
    );
}

#[test]
fn strip_repo_prefix_removes_dot_slash_after_root() {
    let root = "/repo/k8s-website";
    let path = "/repo/k8s-website/./docs/guide.md";
    assert_eq!(strip_repo_prefix(path, root), "docs/guide.md");
}

#[test]
fn strip_repo_prefix_normalizes_backslashes() {
    assert_eq!(strip_repo_prefix("C:\\repo\\./a\\b.md", "C:/repo"), "a/b.md");
    assert_eq!(strip_repo_prefix("other/x.md", "/repo"), "other/x.md");
}

#[test]
fn sanitize_truncates_overlong_fragments_with_stable_hash() {
    let long = "a".repeat(443);
    let seed = "docs/post.md#full";
    let once = sanitize_path_component(&long, seed, MAX_NOTE_STEM_LEN);
    let again = sanitize_path_component(&long, seed, MAX_NOTE_STEM_LEN);
    assert_eq!(once, again);
    assert!(once.chars().count() <= MAX_NOTE_STEM_LEN);
    assert!(once.contains('-'));
}

#[test]
fn sanitize_cleans_collapses_and_trims() {
    assert_eq!(sanitize_path_component("--Hello,  World!--", "s", 100), "Hello-World");
    assert_eq!(sanitize_path_component("a b", "s", 100), "a-b");
    assert_eq!(sanitize_path_component("!!!", "s", 100), "section");
    assert_eq!(sanitize_path_component("", "s", 100), "section");
}

#[test]
fn sanitize_cut_keeps_prefix_and_hash() {
    let out = sanitize_path_component("abcdefghijklmnop", "seed", 12);
    let hash = short_hash("seed");
    assert_eq!(hash.len(), 8);
    assert!(hash.chars().all(|c| c.is_ascii_hexdigit()));
    assert_eq!(out, format!("abc-{hash}"));
}

#[test]
fn note_relpath_from_parts_limits_component_length() {
    let frag = "one-of-the-advantages-that-kubernetes-provides-is-the-ability-to-manage-various-environments-easier-and-better-than-traditional-deployment-strategies-for-most-nontrivial-applications-you-have-test-data-staging-and-production-test-data-staging-and-production";
    let rel = note_relpath_from_parts(
        "blog/_posts/2015/using-kubernetes-namespaces-to-manage.md",
        frag,
        "blog/_posts/2015/using-kubernetes-namespaces-to-manage.md#full",
    );
    let max_comp = rel
        .split('/')
        .map(|c| c.chars().count())
        .max()
        .unwrap_or(0);
    assert!(max_comp <= 255);
}

#[test]
fn note_paths_for_files_and_fragments() {
    assert_eq!(note_relpath_from_parts("docs/guide.md", "", "x"), "docs/guide.md");
    assert_eq!(
        note_relpath_from_parts("docs//guide.mdx", "Intro Part", "x"),
        "docs/guide/Intro-Part.md"
    );
    assert_eq!(sanitize_relpath("/a//b c/", "x"), "a/b-c");
    assert_eq!(note_relpath("/repo/docs/a.md#Setup", "/repo"), "docs/a/Setup.md");
    assert_eq!(note_relpath("Plain Name", "/repo"), "Plain-Name.md");
    assert_eq!(obsidian_link_from_relpath("docs/a/Setup.md"), "docs/a/Setup");
    assert_eq!(obsidian_link_from_relpath("docs/a"), "docs/a");
}
