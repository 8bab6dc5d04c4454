use disk_cleaner::tree::{auto_expand, dir, leaf, FileLeaf, FileNode};

#[test]
fn auto_expand_expands_large_children() {
    let mut root = dir(
        "root",
        vec![
            dir("big_dir", vec![leaf("a.txt", 300)]),
            dir("small_dir", vec![leaf("b.txt", 100)]),
        ],
    );
    root.set_expanded(true);
    auto_expand(&mut root, 0, 2);
    assert!(root.children()[0].expanded(), "big_dir should be expanded (75%)");
    assert!(root.children()[1].expanded(), "small_dir should be expanded (25%)");
}

#[test]
fn auto_expand_skips_small_children() {
    let mut root = dir(
        "root",
        vec![
            dir("big_dir", vec![leaf("a.txt", 300)]),
            dir("tiny_dir", vec![leaf("b.txt", 10)]),
            leaf("c.txt", 90),
        ],
    );
    auto_expand(&mut root, 0, 2);
    assert!(root.children()[0].expanded(), "big_dir should be expanded");
    assert!(!root.children()[1].expanded(), "tiny_dir should NOT be expanded (2.5%)");
    let mut shown = dir(
        "root",
        vec![
            dir("big_dir", vec![leaf("a.txt", 300)]),
            dir("tiny_dir", vec![leaf("b.txt", 10)]),
            leaf("c.txt", 90),
        ],
    );
    shown.set_expanded(true);
    auto_expand(&mut shown, 0, 2);
    assert!(shown.children()[0].expanded(), "big_dir should be expanded");
    assert!(!shown.children()[1].expanded(), "tiny_dir should NOT be expanded (2.5%)");
}

#[test]
fn auto_expand_respects_max_depth() {
    let mut root = dir(
        "root",
        vec![dir("lvl1", vec![dir("lvl2", vec![leaf("deep.txt", 100)])])],
    );
    root.set_expanded(true);
    auto_expand(&mut root, 0, 1);
    assert!(root.children()[0].expanded(), "lvl1 should be expanded");
    assert!(
        !root.children()[0].children()[0].expanded(),
        "lvl2 should NOT be expanded (depth limit)"
    );
}

#[test]
fn auto_expand_recurses_into_expanded_children() {
    let mut root = dir(
        "root",
        vec![dir(
            "lvl1",
            vec![dir("lvl2", vec![leaf("big.txt", 800)]), leaf("small.txt", 10)],
        )],
    );
    root.set_expanded(true);
    auto_expand(&mut root, 0, 2);
    assert!(root.children()[0].expanded(), "lvl1 expanded");
    assert!(
        root.children()[0].children()[0].expanded(),
        "lvl2 expanded (98% of parent)"
    );
}

#[test]
fn expanding_directory_sorts_direct_children_once() {
    let mut root = dir(
        "root",
        vec![leaf("small.txt", 10), leaf("big.txt", 100), leaf("mid.txt", 50)],
    );
    assert!(!root.children_sorted());
    root.set_expanded(true);
    assert!(root.children_sorted());
    assert_eq!(root.children()[0].name(), "big.txt");
    assert_eq!(root.children()[1].name(), "mid.txt");
    assert_eq!(root.children()[2].name(), "small.txt");
}

#[test]
fn expanding_parent_does_not_sort_collapsed_descendants() {
    let mut root = dir(
        "root",
        vec![dir("sub", vec![leaf("small.txt", 10), leaf("big.txt", 100)])],
    );
    root.set_expanded(true);
    let sub = &root.children()[0];
    assert!(root.children_sorted());
    assert!(!sub.children_sorted());
    assert_eq!(sub.children()[0].name(), "small.txt");
}

#[test]
fn equally_large_entries_keep_their_order() {
    let mut root = dir(
        "root",
        vec![leaf("one", 5), leaf("two", 9), leaf("three", 5), leaf("four", 9)],
    );
    root.set_expanded(true);
    let names = |node: &FileNode| -> Vec<String> {
        node.children().iter().map(|c| String::from(c.name())).collect()
    };
    assert_eq!(names(&root), vec!["two", "four", "one", "three"]);
    root.set_expanded(false);
    root.set_expanded(true);
    assert_eq!(names(&root), vec!["two", "four", "one", "three"]);
}

#[test]
fn auto_expand_shows_an_exact_quarter_and_nothing_of_an_empty_directory() {
    let mut root = dir(
        "root",
        vec![
            dir("quarter", vec![leaf("a", 25)]),
            dir("less", vec![leaf("b", 24)]),
            leaf("rest", 51),
        ],
    );
    auto_expand(&mut root, 0, 1);
    assert!(root.children()[0].expanded());
    assert!(!root.children()[1].expanded());
    let mut empty = dir("root", vec![dir("sub", vec![])]);
    auto_expand(&mut empty, 0, 1);
    assert!(!empty.children()[0].expanded());
    let mut deep = dir("root", vec![dir("sub", vec![leaf("a", 1)])]);
    auto_expand(&mut deep, 2, 2);
    assert!(!deep.children()[0].expanded());
}

#[test]
fn leaves_keep_their_size_and_their_hidden_mark_apart() {
    let leaf = FileLeaf::new(String::from("f"), 1234, true);
    assert_eq!(leaf.size(), 1234);
    assert!(leaf.is_hidden());
    let largest = FileLeaf::new(String::from("f"), u64::MAX / 2, false);
    assert_eq!(largest.size(), u64::MAX / 2);
    assert!(!largest.is_hidden());
    let too_large = FileLeaf::new(String::from("f"), (1 << 63) + 7, false);
    assert_eq!(too_large.size(), 7);
    assert!(too_large.is_hidden());
}

#[test]
fn a_directory_is_as_large_as_its_entries() {
    let root = dir("root", vec![leaf("a", 3), dir("b", vec![leaf("c", 4), leaf(".d", 5)])]);
    assert_eq!(root.size(), 12);
    assert!(root.is_dir());
    assert!(!root.is_hidden());
    assert!(!root.expanded());
    assert_eq!(root.children()[1].size(), 9);
    assert!(root.children()[1].children()[1].is_hidden());
    assert!(dir(".git", vec![]).is_hidden());
}

#[test]
fn files_hold_nothing_and_stay_closed() {
    let mut file = leaf("f", 1);
    file.set_expanded(true);
    assert!(!file.expanded());
    assert!(file.children().is_empty());
    assert!(file.children_sorted());
    assert!(file.as_dir_mut().is_none());
    assert!(matches!(file, FileNode::File(_)));
}

#[test]
fn entries_are_taken_out_with_their_size() {
    let mut root = dir("root", vec![leaf("a", 3), leaf("b", 4)]);
    let d = root.as_dir_mut().unwrap();
    assert_eq!(d.remove_child(0), 3);
    d.sub_size(10);
    d.rename(String::from("other"));
    d.child_mut(0).set_expanded(true);
    assert_eq!(root.size(), 0);
    assert_eq!(root.name(), "other");
    assert_eq!(root.children().len(), 1);
}
