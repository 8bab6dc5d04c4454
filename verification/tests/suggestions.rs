use disk_cleaner::path::NodePath;
use disk_cleaner::suggestions::{analyze, SafetyLevel, SuggestionCategory};
use disk_cleaner::suggestions_ui::{
    counts_line, more_line, shorten_path, shown_items, toggle_label,
};
use disk_cleaner::tree::{dir, leaf};

#[test]
fn detect_build_artifacts() {
    let tree = dir(
        "/test",
        vec![
            dir("target", vec![leaf("debug.o", 1000)]),
            dir("src", vec![leaf("main.rs", 50)]),
        ],
    );
    let report = analyze(&tree);
    assert_eq!(report.groups.len(), 1);
    assert_eq!(report.groups[0].category, SuggestionCategory::BuildArtifacts);
    assert_eq!(report.groups[0].total_size, 1000);
    assert_eq!(report.total_reclaimable, 1000);
}

#[test]
fn detect_node_modules() {
    let tree = dir(
        "/test",
        vec![
            dir("node_modules", vec![leaf("react.js", 5000)]),
            leaf("index.js", 100),
        ],
    );
    let report = analyze(&tree);
    assert_eq!(report.groups.len(), 1);
    assert_eq!(report.groups[0].category, SuggestionCategory::PackageCaches);
    assert_eq!(report.groups[0].total_size, 5000);
}

#[test]
fn detect_temp_files() {
    let tree = dir(
        "/test",
        vec![leaf("debug.log", 200), leaf("data.tmp", 100), leaf("main.rs", 50)],
    );
    let report = analyze(&tree);
    assert_eq!(report.groups.len(), 1);
    assert_eq!(report.groups[0].category, SuggestionCategory::TempFiles);
    assert_eq!(report.groups[0].total_size, 300);
}

#[test]
fn detect_installers() {
    let tree = dir(
        "/test",
        vec![leaf("Xcode.dmg", 8_000_000), leaf("notes.txt", 50)],
    );
    let report = analyze(&tree);
    assert_eq!(report.groups.len(), 1);
    assert_eq!(report.groups[0].category, SuggestionCategory::OldInstallers);
    assert_eq!(report.groups[0].total_size, 8_000_000);
}

#[test]
fn no_double_count_nested_targets() {
    let tree = dir(
        "/test",
        vec![dir(
            "project",
            vec![dir("target", vec![dir("debug", vec![leaf("bin", 500)])])],
        )],
    );
    let report = analyze(&tree);
    assert_eq!(report.groups.len(), 1);
    assert_eq!(report.groups[0].items.len(), 1);
    assert_eq!(report.groups[0].total_size, 500);
    assert_eq!(report.groups[0].items[0].path.to_text(), "/test/project/target");
}

#[test]
fn empty_tree_no_suggestions() {
    let tree = dir("/test", vec![]);
    let report = analyze(&tree);
    assert!(report.groups.is_empty());
    assert_eq!(report.total_reclaimable, 0);
}

#[test]
fn multiple_categories_sorted_by_size() {
    let tree = dir(
        "/test",
        vec![
            dir("node_modules", vec![leaf("pkg.js", 10_000)]),
            dir("target", vec![leaf("debug.o", 500)]),
            leaf("crash.log", 50),
        ],
    );
    let report = analyze(&tree);
    assert_eq!(report.groups.len(), 3);
    assert!(report.groups[0].total_size >= report.groups[1].total_size);
    assert!(report.groups[1].total_size >= report.groups[2].total_size);
    assert_eq!(report.total_reclaimable, 10_550);
}

#[test]
fn empty_matches_are_no_suggestions() {
    let tree = dir("/test", vec![dir("target", vec![]), leaf("empty.tmp", 0)]);
    assert!(analyze(&tree).groups.is_empty());
}

#[test]
fn what_is_suggested_is_counted_once_and_is_no_larger_than_the_tree() {
    let tree = dir(
        "/test",
        vec![
            dir(
                "target",
                vec![leaf("a.log", 5), dir("node_modules", vec![leaf("b.js", 7)])],
            ),
            leaf("setup.iso", 11),
        ],
    );
    let report = analyze(&tree);
    assert_eq!(report.total_reclaimable, 23);
    assert!(report.total_reclaimable <= tree.size());
    assert_eq!(report.groups.len(), 2);
}

#[test]
fn categories_of_suggestions_have_words() {
    assert_eq!(SafetyLevel::Safe.label(), "Safe to delete");
    assert_eq!(SafetyLevel::Caution.label(), "Review first");
    assert_eq!(SuggestionCategory::BuildArtifacts.safety(), SafetyLevel::Safe);
    assert!(!SuggestionCategory::TempFiles.label().is_empty());
    assert!(!SuggestionCategory::TempFiles.description().is_empty());
    assert!(!SuggestionCategory::TempFiles.icon().is_empty());
}

#[test]
fn the_panel_counts_and_cuts() {
    let mut files = Vec::new();
    for i in 0..25 {
        files.push(leaf(&format!("f{i}.tmp"), 1));
    }
    let report = analyze(&dir("/test", files));
    assert_eq!(counts_line(&report.groups), "25 items across 1 categories");
    assert_eq!(shown_items(25), 20);
    assert_eq!(shown_items(7), 7);
    assert_eq!(more_line(25), Some(String::from("... and 5 more items")));
    assert_eq!(more_line(20), None);
    assert_eq!(toggle_label(true), "Hide details \u{25B2}");
    assert_eq!(toggle_label(false), "Show details \u{25BC}");
}

#[test]
fn long_paths_show_their_end() {
    let short = "a".repeat(60);
    assert_eq!(shorten_path(&short), short);
    let long = format!("{}{}", "x".repeat(10), "y".repeat(57));
    assert_eq!(shorten_path(&long), format!("...{}", "y".repeat(57)));
}

#[test]
fn no_suggestion_lies_in_another() {
    let tree = dir(
        "/r",
        vec![
            dir("target", vec![dir("node_modules", vec![leaf("a.tmp", 3)]), leaf("b.dmg", 4)]),
            dir("p", vec![dir("target", vec![leaf("c", 5)]), leaf("d.tmp", 6)]),
            leaf("target.tmp", 7),
        ],
    );
    let report = analyze(&tree);
    let items: Vec<&NodePath> =
        report.groups.iter().flat_map(|group| group.items.iter().map(|item| &item.path)).collect();
    assert_eq!(items.len(), 4);
    for (i, a) in items.iter().enumerate() {
        for (j, b) in items.iter().enumerate() {
            assert_eq!(a.contains(b), i == j, "{} {}", a.to_text(), b.to_text());
        }
    }
}
