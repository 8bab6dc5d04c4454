use disk_cleaner::path::NodePath;
use disk_cleaner::targets::{
    file_group_files, resolve_batch_targets, resolve_deletion_targets, row_is_file_group,
};
use disk_cleaner::tree::{dir, leaf, FileNode};
use disk_cleaner::ui::{collect_cached_rows, CachedRow};

fn path(text: &str) -> NodePath {
    NodePath::new(text)
}

fn texts(paths: &[NodePath]) -> Vec<String> {
    paths.iter().map(|p| p.to_text()).collect()
}

/// Rendered rows, the source of truth for what is a group.
fn rows_for(tree: &FileNode) -> Vec<CachedRow> {
    collect_cached_rows(tree, "", None, true, None, None, None)
}

#[test]
fn row_is_file_group_true_for_synthetic_group_row() {
    let mut tree = dir("root", vec![leaf("a.txt", 10), leaf("b.txt", 20)]);
    tree.set_expanded(true);
    let rows = rows_for(&tree);
    assert!(row_is_file_group(&rows, &path("root/__file_group__")));
}

#[test]
fn row_is_file_group_false_for_real_file_named_marker() {
    let mut tree = dir(
        "root",
        vec![leaf("a.txt", 10), leaf("b.txt", 20), leaf("__file_group__", 1)],
    );
    tree.set_expanded(true);
    let rows = rows_for(&tree);
    assert!(!row_is_file_group(&rows, &path("root/__file_group__")));
}

#[test]
fn row_is_file_group_false_for_path_not_rendered() {
    assert!(!row_is_file_group(&[], &path("root/__file_group__")));
}

#[test]
fn resolve_synthetic_group_expands_to_loose_files() {
    let mut tree = dir("root", vec![leaf("a.txt", 10), leaf("b.txt", 20)]);
    tree.set_expanded(true);
    let rows = rows_for(&tree);
    assert!(rows
        .iter()
        .any(|r| r.is_file_group && r.path.same(&path("root/__file_group__"))));
    let got = resolve_deletion_targets(&rows, Some(&tree), &path("root/__file_group__"), true);
    assert_eq!(texts(&got), vec!["root/a.txt", "root/b.txt"]);
}

#[test]
fn one_row_is_a_batch_of_one() {
    let mut tree = dir("root", vec![leaf("a.txt", 10), leaf("b.txt", 20), dir("d", vec![])]);
    tree.set_expanded(true);
    let rows = rows_for(&tree);
    for text in ["root/__file_group__", "root/a.txt", "root/d", "root", "elsewhere"] {
        let one = resolve_deletion_targets(&rows, Some(&tree), &path(text), true);
        let batch = resolve_batch_targets(&rows, Some(&tree), vec![path(text)], true);
        assert_eq!(texts(&one), texts(&batch), "{text}");
        if text != "root/__file_group__" {
            assert_eq!(texts(&one), [text]);
        }
    }
    let group = path("root/__file_group__");
    assert!(resolve_deletion_targets(&rows, None, &group, true).is_empty());
    assert!(resolve_batch_targets(&rows, None, vec![group], true).is_empty());
}

#[test]
fn resolve_real_file_named_group_deletes_only_itself() {
    let mut tree = dir(
        "root",
        vec![leaf("a.txt", 10), leaf("b.txt", 20), leaf("__file_group__", 1)],
    );
    tree.set_expanded(true);
    let rows = rows_for(&tree);
    assert!(!rows.iter().any(|r| r.is_file_group));
    let got = resolve_deletion_targets(&rows, Some(&tree), &path("root/__file_group__"), true);
    assert_eq!(texts(&got), vec!["root/__file_group__"]);
}

#[test]
fn resolve_ordinary_file_maps_to_itself() {
    let mut tree = dir("root", vec![leaf("a.txt", 10), leaf("b.txt", 20)]);
    tree.set_expanded(true);
    let rows = rows_for(&tree);
    let got = resolve_deletion_targets(&rows, Some(&tree), &path("root/a.txt"), true);
    assert_eq!(texts(&got), vec!["root/a.txt"]);
}

#[test]
fn batch_expands_group_and_dedups_overlapping_child() {
    let mut tree = dir("root", vec![leaf("a.txt", 10), leaf("b.txt", 20)]);
    tree.set_expanded(true);
    let rows = rows_for(&tree);
    let got = resolve_batch_targets(
        &rows,
        Some(&tree),
        vec![path("root/__file_group__"), path("root/a.txt")],
        true,
    );
    assert_eq!(texts(&got), vec!["root/a.txt", "root/b.txt"]);
}

#[test]
fn batch_group_expansion_respects_show_hidden() {
    let mut tree = dir(
        "root",
        vec![leaf("a.txt", 10), leaf("b.txt", 20), leaf(".secret", 5)],
    );
    tree.set_expanded(true);
    let rows = collect_cached_rows(&tree, "", None, false, None, None, None);
    let got = resolve_batch_targets(
        &rows,
        Some(&tree),
        vec![path("root/__file_group__")],
        false,
    );
    assert_eq!(texts(&got), vec!["root/a.txt", "root/b.txt"]);
}

#[test]
fn batch_stale_group_path_treated_literally() {
    let got = resolve_batch_targets(&[], None, vec![path("root/__file_group__")], true);
    assert_eq!(texts(&got), vec!["root/__file_group__"]);
}

#[test]
fn resolve_stale_path_not_in_rows_maps_to_itself() {
    let tree = dir("root", vec![leaf("a.txt", 10), leaf("b.txt", 20)]);
    let rows: Vec<CachedRow> = Vec::new();
    let got = resolve_deletion_targets(&rows, Some(&tree), &path("root/__file_group__"), true);
    assert_eq!(texts(&got), vec!["root/__file_group__"]);
}

#[test]
fn resolve_group_without_tree_is_empty() {
    let mut tree = dir("root", vec![leaf("a.txt", 10), leaf("b.txt", 20)]);
    tree.set_expanded(true);
    let rows = rows_for(&tree);
    assert!(resolve_deletion_targets(&rows, None, &path("root/__file_group__"), true).is_empty());
}

#[test]
fn group_files_are_the_loose_files_in_alphabetical_order() {
    let tree = dir(
        "root",
        vec![
            leaf("b.txt", 1),
            dir("sub", vec![leaf("deep.txt", 9)]),
            leaf("a.txt", 2),
            leaf(".h", 3),
            leaf("Z.txt", 4),
        ],
    );
    assert_eq!(
        texts(&file_group_files(&tree, &path("root"), true)),
        vec!["root/.h", "root/Z.txt", "root/a.txt", "root/b.txt"]
    );
    assert_eq!(
        texts(&file_group_files(&tree, &path("root"), false)),
        vec!["root/Z.txt", "root/a.txt", "root/b.txt"]
    );
    assert_eq!(texts(&file_group_files(&tree, &path("root/sub"), true)), vec!["root/sub/deep.txt"]);
    assert!(file_group_files(&tree, &path("elsewhere"), true).is_empty());
}

#[test]
fn batch_lists_each_path_once_in_order() {
    let got = resolve_batch_targets(
        &[],
        None,
        vec![path("r/b"), path("r/a"), path("r/b"), path("r/./a")],
        true,
    );
    assert_eq!(texts(&got), vec!["r/b", "r/a"]);
}

#[test]
fn targets_are_written_as_their_rows_are() {
    let mut tree = dir("/x//root/", vec![leaf("a.txt", 10), leaf("b.txt", 20)]);
    tree.set_expanded(true);
    let rows = rows_for(&tree);
    let one = resolve_deletion_targets(&rows, Some(&tree), &path("/x/root//a.txt"), true);
    assert_eq!(texts(&one), ["/x/root//a.txt"]);
    let group = path("/x//root/__file_group__");
    let files = resolve_deletion_targets(&rows, Some(&tree), &group, true);
    assert_eq!(texts(&files), ["/x//root/a.txt", "/x//root/b.txt"]);
    assert_eq!(
        texts(&file_group_files(&tree, &path("/x/./root"), true)),
        ["/x/./root/a.txt", "/x/./root/b.txt"]
    );
    let batch = vec![path("/x/root/b.txt"), group, path("/x//root//b.txt")];
    assert_eq!(
        texts(&resolve_batch_targets(&rows, Some(&tree), batch, true)),
        ["/x/root/b.txt", "/x//root/a.txt"]
    );
}

#[test]
fn names_that_spell_one_path_are_one_target_of_a_batch() {
    let mut tree = dir("root", vec![leaf("x", 10), leaf("./x", 20)]);
    tree.set_expanded(true);
    let rows = rows_for(&tree);
    let group = path("root/__file_group__");
    let one = resolve_deletion_targets(&rows, Some(&tree), &group, true);
    assert_eq!(texts(&one), ["root/./x", "root/x"]);
    let batch = resolve_batch_targets(&rows, Some(&tree), vec![group], true);
    assert_eq!(texts(&batch), ["root/./x"]);
}

#[test]
fn the_files_of_a_large_group_are_in_alphabetical_order() {
    let names: Vec<String> = (0..3000).map(|i| format!("f{}", i * 7919 % 3000)).collect();
    let mut tree = dir("root", names.iter().map(|name| leaf(name, 1)).collect());
    tree.set_expanded(true);
    let mut expected: Vec<String> = names.iter().map(|name| format!("root/{name}")).collect();
    expected.sort();
    let found = file_group_files(&tree, &path("root"), true);
    assert_eq!(texts(&found), expected);
}
