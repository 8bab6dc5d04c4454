use disk_cleaner::categories::FileCategory;
use disk_cleaner::matching::{build_category_match_cache, build_text_match_cache, node_matches};
use disk_cleaner::navigate::{
    breadcrumbs, find_node, find_node_info, find_parent_path, remove_node, set_expanded,
    toggle_expand,
};
use disk_cleaner::path::{NodePath, PathSet};
use disk_cleaner::tree::{dir, leaf, FileNode};
use disk_cleaner::ui::collect_cached_rows;

fn path(text: &str) -> NodePath {
    NodePath::new(text)
}

#[test]
fn node_matches_direct_name() {
    let tree = leaf("readme.md", 10);
    assert!(node_matches(&tree, "readme"));
    assert!(!node_matches(&tree, "cargo"));
}

#[test]
fn node_matches_descendant() {
    let tree = dir("root", vec![dir("src", vec![leaf("main.rs", 50)])]);
    assert!(node_matches(&tree, "main"));
    assert!(node_matches(&tree, "src"));
    assert!(!node_matches(&tree, "missing"));
}

#[test]
fn toggle_expand_flips_target() {
    let mut tree = dir("root", vec![dir("sub", vec![leaf("f.txt", 1)])]);
    assert!(!tree.children()[0].expanded());
    toggle_expand(&mut tree, &path("root/sub"));
    assert!(tree.children()[0].expanded());
    toggle_expand(&mut tree, &path("root/sub"));
    assert!(!tree.children()[0].expanded());
}

#[test]
fn toggle_expand_returns_false_for_missing() {
    let mut tree = dir("root", vec![]);
    assert!(!toggle_expand(&mut tree, &path("nope")));
}

#[test]
fn remove_node_direct_child() {
    let mut tree = dir("root", vec![leaf("a.txt", 10), leaf("b.txt", 20)]);
    assert_eq!(tree.size(), 30);
    let removed = remove_node(&mut tree, &path("root/a.txt"));
    assert_eq!(removed, Some(10));
    assert_eq!(tree.size(), 20);
    assert_eq!(tree.children().len(), 1);
}

#[test]
fn remove_node_nested() {
    let mut tree = dir("root", vec![dir("sub", vec![leaf("deep.txt", 100)])]);
    assert_eq!(tree.size(), 100);
    let removed = remove_node(&mut tree, &path("root/sub/deep.txt"));
    assert_eq!(removed, Some(100));
    assert_eq!(tree.size(), 0);
    let sub = &tree.children()[0];
    assert_eq!(sub.size(), 0);
    assert!(sub.children().is_empty());
}

#[test]
fn remove_node_returns_none_for_missing() {
    let mut tree = dir("root", vec![leaf("a.txt", 10)]);
    assert_eq!(remove_node(&mut tree, &path("nope")), None);
    assert_eq!(tree.size(), 10);
}

#[test]
fn collect_cached_rows_is_deterministic() {
    let mut tree = dir(
        "root",
        vec![
            dir("src", vec![leaf("main.rs", 50), leaf("lib.rs", 30)]),
            leaf("Cargo.toml", 10),
        ],
    );
    set_expanded(&mut tree, &path("root/src"), true);
    let rows_a = collect_cached_rows(&tree, "", None, true, None, None, None);
    let rows_b = collect_cached_rows(&tree, "", None, true, None, None, None);
    assert_eq!(rows_a.len(), rows_b.len());
    for (a, b) in rows_a.iter().zip(rows_b.iter()) {
        assert!(a.path.same(&b.path));
        assert_eq!(a.name, b.name);
        assert_eq!(a.size, b.size);
        assert_eq!(a.is_dir, b.is_dir);
        assert_eq!(a.expanded, b.expanded);
        assert_eq!(a.depth, b.depth);
        assert_eq!(a.parent_size, b.parent_size);
        assert_eq!(a.children_count, b.children_count);
    }
}

#[test]
fn collect_cached_rows_filters_hidden() {
    let mut tree = dir("root", vec![leaf(".hidden", 5), leaf("visible.txt", 10)]);
    tree.set_expanded(true);
    let rows = collect_cached_rows(&tree, "", None, false, None, None, None);
    assert_eq!(rows.len(), 2);
    assert_eq!(rows[1].name, "visible.txt");
    let rows_all = collect_cached_rows(&tree, "", None, true, None, None, None);
    assert_eq!(rows_all.len(), 2);
    assert!(rows_all[1].is_file_group);
    assert_eq!(rows_all[1].name, "[2 files]");
}

#[test]
fn build_text_match_cache_marks_matching_subtrees() {
    let tree = dir(
        "root",
        vec![
            dir("src", vec![leaf("main.rs", 50)]),
            dir("docs", vec![leaf("readme.md", 10)]),
        ],
    );
    let cache = build_text_match_cache(&tree, "main");
    assert!(cache.contains(&path("root")));
    assert!(cache.contains(&path("root/src")));
    assert!(cache.contains(&path("root/src/main.rs")));
    assert!(!cache.contains(&path("root/docs")));
    assert!(!cache.contains(&path("root/docs/readme.md")));
}

#[test]
fn build_text_match_cache_visits_all_siblings() {
    let tree = dir(
        "root",
        vec![
            dir("a", vec![leaf("main.rs", 50)]),
            dir("b", vec![leaf("main.py", 30)]),
        ],
    );
    let cache = build_text_match_cache(&tree, "main");
    assert!(cache.contains(&path("root/a")));
    assert!(cache.contains(&path("root/a/main.rs")));
    assert!(cache.contains(&path("root/b")));
    assert!(cache.contains(&path("root/b/main.py")));
}

#[test]
fn build_category_match_cache_visits_all_siblings() {
    let tree = dir(
        "root",
        vec![
            dir("a", vec![leaf("clip1.mp4", 100)]),
            dir("b", vec![leaf("clip2.mp4", 200)]),
        ],
    );
    let cache = build_category_match_cache(&tree, FileCategory::Video);
    assert!(cache.contains(&path("root/a")));
    assert!(cache.contains(&path("root/a/clip1.mp4")));
    assert!(cache.contains(&path("root/b")));
    assert!(cache.contains(&path("root/b/clip2.mp4")));
}

#[test]
fn build_category_match_cache_marks_matching_subtrees() {
    let tree = dir(
        "root",
        vec![
            dir("media", vec![leaf("movie.mp4", 1000)]),
            dir("src", vec![leaf("main.rs", 50)]),
        ],
    );
    let cache = build_category_match_cache(&tree, FileCategory::Video);
    assert!(cache.contains(&path("root")));
    assert!(cache.contains(&path("root/media")));
    assert!(cache.contains(&path("root/media/movie.mp4")));
    assert!(!cache.contains(&path("root/src")));
    assert!(!cache.contains(&path("root/src/main.rs")));
}

#[test]
fn cached_rows_with_text_cache_matches_uncached() {
    let tree = dir(
        "root",
        vec![
            dir("src", vec![leaf("main.rs", 50), leaf("lib.rs", 30)]),
            dir("docs", vec![leaf("readme.md", 10)]),
        ],
    );
    let query = "main";
    let cache = build_text_match_cache(&tree, query);
    let rows_uncached = collect_cached_rows(&tree, query, None, true, None, None, None);
    let rows_cached = collect_cached_rows(&tree, query, None, true, Some(&cache), None, None);
    assert_eq!(rows_uncached.len(), rows_cached.len());
    for (a, b) in rows_uncached.iter().zip(rows_cached.iter()) {
        assert!(a.path.same(&b.path));
    }
}

#[test]
fn rows_of_a_category_agree_with_and_without_a_cache() {
    let mut tree = dir(
        "root",
        vec![
            dir("media", vec![leaf("movie.mp4", 1000), leaf("notes.txt", 3)]),
            dir("src", vec![leaf("main.rs", 50)]),
        ],
    );
    tree.set_expanded(true);
    set_expanded(&mut tree, &path("root/media"), true);
    let cache = build_category_match_cache(&tree, FileCategory::Video);
    let plain =
        collect_cached_rows(&tree, "", Some(FileCategory::Video), true, None, None, None);
    let cached = collect_cached_rows(
        &tree,
        "",
        Some(FileCategory::Video),
        true,
        None,
        Some(&cache),
        None,
    );
    let names: Vec<&str> = plain.iter().map(|r| r.name.as_str()).collect();
    assert_eq!(names, vec!["root", "media", "movie.mp4"]);
    let cached_names: Vec<&str> = cached.iter().map(|r| r.name.as_str()).collect();
    assert_eq!(cached_names, names);
}

#[test]
fn a_group_stands_before_smaller_directories() {
    let mut tree = dir(
        "root",
        vec![
            dir("big", vec![leaf("x", 100)]),
            leaf("a", 30),
            leaf("b", 20),
            dir("small", vec![leaf("y", 10)]),
        ],
    );
    tree.set_expanded(true);
    let rows = collect_cached_rows(&tree, "", None, true, None, None, None);
    let names: Vec<&str> = rows.iter().map(|r| r.name.as_str()).collect();
    assert_eq!(names, vec!["root", "big", "[2 files]", "small"]);
    let group = &rows[2];
    assert!(group.is_file_group && !group.is_dir && !group.expanded);
    assert_eq!(group.size, 50);
    assert_eq!(group.depth, 1);
    assert_eq!(group.parent_size, 160);
    assert_eq!(group.path.to_text(), "root/__file_group__");
    let mut open = PathSet::new();
    open.insert(&path("root"));
    let shown = collect_cached_rows(&tree, "", None, true, None, None, Some(&open));
    let names: Vec<&str> = shown.iter().map(|r| r.name.as_str()).collect();
    assert_eq!(names, vec!["root", "big", "[2 files]", "a", "b", "small"]);
    assert!(shown[2].expanded);
    assert_eq!(shown[3].depth, 2);
}

#[test]
fn filters_open_closed_directories_and_group_nothing() {
    let tree = dir(
        "root",
        vec![dir("src", vec![leaf("main.rs", 5), leaf("Main.txt", 4)]), leaf("x", 1)],
    );
    let rows = collect_cached_rows(&tree, "main", None, true, None, None, None);
    let names: Vec<&str> = rows.iter().map(|r| r.name.as_str()).collect();
    assert_eq!(names, vec!["root", "src", "main.rs", "Main.txt"]);
}

#[test]
fn nodes_are_found_where_they_are() {
    let mut tree = dir("/r", vec![dir("a", vec![leaf("f", 1)]), dir("b", vec![])]);
    assert_eq!(find_node_info(&tree, &path("/r")), Some((true, false, true)));
    assert_eq!(find_node_info(&tree, &path("/r/a/f")), Some((false, false, false)));
    assert_eq!(find_node_info(&tree, &path("/r/b")), Some((true, false, false)));
    assert_eq!(find_node_info(&tree, &path("/r/c")), None);
    assert_eq!(find_parent_path(&tree, &path("/r/a/f")).unwrap().to_text(), "/r/a");
    assert_eq!(find_parent_path(&tree, &path("/r/a")).unwrap().to_text(), "/r");
    assert!(find_parent_path(&tree, &path("/r")).is_none());
    assert!(set_expanded(&mut tree, &path("/r/a"), true));
    assert!(!set_expanded(&mut tree, &path("/r/zzz"), true));
    assert_eq!(find_node_info(&tree, &path("/r/a")), Some((true, true, true)));
}

#[test]
fn what_was_removed_is_not_found_again() {
    let mut tree = dir("/r", vec![dir("a", vec![leaf("f", 5), leaf("g", 6)])]);
    assert_eq!(remove_node(&mut tree, &path("/r/a/f")), Some(5));
    assert_eq!(find_node_info(&tree, &path("/r/a/f")), None);
    assert_eq!(remove_node(&mut tree, &path("/r/a/f")), None);
    assert_eq!(tree.size(), 6);
    assert_eq!(remove_node(&mut tree, &path("/r")), None);
}

/// Everything that a tree has to say of the nodes at `texts`.
fn told(tree: &FileNode, texts: &[&str]) -> Vec<Option<(u64, bool)>> {
    texts
        .iter()
        .map(|text| find_node(tree, &path(text)).map(|node| (node.size(), node.expanded())))
        .collect()
}

#[test]
fn removing_a_node_lightens_what_held_it_and_nothing_else() {
    let mut tree = dir(
        "/r",
        vec![
            dir("a", vec![dir("b", vec![leaf("f", 5), leaf("g", 6)]), leaf("h", 1)]),
            dir("c", vec![leaf("f", 9)]),
        ],
    );
    let rest = ["/r/a/b/g", "/r/a/h", "/r/c", "/r/c/f"];
    let before = told(&tree, &rest);
    assert_eq!(remove_node(&mut tree, &path("/r/a/b/f")), Some(5));
    assert_eq!(told(&tree, &rest), before);
    assert_eq!(
        told(&tree, &["/r", "/r/a", "/r/a/b", "/r/a/b/f"]),
        [Some((16, false)), Some((7, false)), Some((6, false)), None]
    );
    let whole = told(&tree, &["/r", "/r/a", "/r/a/b", "/r/a/b/g", "/r/a/h", "/r/c", "/r/c/f"]);
    for missing in ["/r", "/r/a/b/f", "/r/zzz", "/q/a", ""] {
        assert_eq!(remove_node(&mut tree, &path(missing)), None);
    }
    assert_eq!(
        told(&tree, &["/r", "/r/a", "/r/a/b", "/r/a/b/g", "/r/a/h", "/r/c", "/r/c/f"]),
        whole
    );
}

#[test]
fn opening_one_node_leaves_the_others() {
    let mut tree = dir(
        "/r",
        vec![dir("a", vec![dir("b", vec![leaf("f", 5)])]), dir("c", vec![leaf("f", 9)])],
    );
    let all = ["/r", "/r/a", "/r/a/b", "/r/a/b/f", "/r/c", "/r/c/f"];
    let before = told(&tree, &all);
    for missing in ["/r/zzz", "/q", "/r/a/b/f/x"] {
        assert!(!toggle_expand(&mut tree, &path(missing)));
        assert!(!set_expanded(&mut tree, &path(missing), true));
        assert_eq!(told(&tree, &all), before);
    }
    assert!(toggle_expand(&mut tree, &path("/r/a")));
    let mut after = before.clone();
    after[1] = Some((5, true));
    assert_eq!(told(&tree, &all), after);
    assert!(set_expanded(&mut tree, &path("/r/a"), false));
    assert_eq!(told(&tree, &all), before);
}

#[test]
fn the_parent_is_a_folder_that_holds_the_node() {
    let tree = dir("/r", vec![dir("a", vec![leaf("f", 5)]), leaf("g", 1)]);
    for (text, parent) in [
        ("/r/a/f", Some("/r/a")),
        ("/r/a", Some("/r")),
        ("/r/g", Some("/r")),
        ("/r", None),
        ("/r/a/zzz", None),
        ("/r/g/x", None),
        ("/q/a", None),
    ] {
        let found = find_parent_path(&tree, &path(text));
        assert_eq!(found.as_ref().map(|p| p.to_text()).as_deref(), parent, "{text}");
        if let Some(folder) = found {
            assert!(find_node(&tree, &folder).unwrap().is_dir());
        }
    }
}

#[test]
fn the_trail_is_as_long_as_the_way_to_what_is_found() {
    let tree = dir("/r", vec![dir("a", vec![dir("b", vec![leaf("f", 5)])])]);
    let length = |text: &str| breadcrumbs(&tree, &path(text)).len();
    assert_eq!((length("/r"), length("/r/a"), length("/r/a/b"), length("/r/a/b/f")), (1, 2, 3, 4));
    for missing in ["/r/zzz", "/q", ""] {
        assert!(find_node(&tree, &path(missing)).is_none());
        assert_eq!(length(missing), 1, "{missing}");
    }
}

#[test]
fn no_two_rows_have_the_same_path() {
    let mut tree = dir(
        "/r",
        vec![
            dir("a", vec![leaf("f", 5), leaf("g", 6), dir("__file_group__", vec![])]),
            dir("b", vec![leaf("f", 5), leaf("g", 6)]),
            leaf("f", 9),
            leaf("g", 1),
        ],
    );
    for text in ["/r", "/r/a", "/r/b"] {
        assert!(set_expanded(&mut tree, &path(text), true));
    }
    let mut groups = PathSet::new();
    groups.insert(&path("/r"));
    groups.insert(&path("/r/b"));
    let rows = collect_cached_rows(&tree, "", None, true, None, None, Some(&groups));
    assert_eq!(rows.len(), 12);
    for (i, a) in rows.iter().enumerate() {
        for (j, b) in rows.iter().enumerate() {
            assert_eq!(a.path.same(&b.path), i == j);
        }
    }
}

#[test]
fn removal_never_takes_more_than_there_is() {
    let file = FileNode::new_file(String::from("f"), 50, false);
    let sub = FileNode::new_dir(String::from("a"), 20, vec![file], false);
    let mut tree = FileNode::new_dir(String::from("/r"), 60, vec![sub], false);
    assert_eq!(remove_node(&mut tree, &path("/r/a/f")), Some(50));
    assert_eq!(told(&tree, &["/r", "/r/a", "/r/a/f"]), [Some((10, false)), Some((0, false)), None]);
}
