use std::sync::atomic::AtomicBool;

use disk_cleaner::categories::{
    categorize, compute_stats, compute_stats_cancellable, node_matches_category, CategoryStats,
    FileCategory,
};
use disk_cleaner::color::Rgb;
use disk_cleaner::tree::{dir, leaf};

#[test]
fn categorize_video() {
    assert_eq!(categorize("movie.mp4"), FileCategory::Video);
    assert_eq!(categorize("clip.MKV"), FileCategory::Video);
}

#[test]
fn categorize_image() {
    assert_eq!(categorize("photo.jpg"), FileCategory::Image);
    assert_eq!(categorize("icon.PNG"), FileCategory::Image);
}

#[test]
fn categorize_code() {
    assert_eq!(categorize("main.rs"), FileCategory::Code);
    assert_eq!(categorize("config.json"), FileCategory::Code);
    assert_eq!(categorize("style.css"), FileCategory::Code);
}

#[test]
fn categorize_unknown() {
    assert_eq!(categorize("mystery"), FileCategory::Other);
    assert_eq!(categorize("data.xyz"), FileCategory::Other);
}

#[test]
fn categorize_preserves_case_and_extension_edge_cases() {
    for (name, expected) in [
        ("budget.NuMbErS", FileCategory::Document),
        (".MP4", FileCategory::Video),
        ("archive.tar.GZ", FileCategory::Archive),
        ("rs", FileCategory::Code),
        ("", FileCategory::Other),
        ("name.", FileCategory::Other),
        ("name.numbersx", FileCategory::Other),
        ("name.İso", FileCategory::Other),
        ("name.🎥", FileCategory::Other),
    ] {
        assert_eq!(categorize(name), expected, "{name}");
    }
}

#[test]
fn stats_keep_zero_byte_files_but_omit_absent_categories() {
    let empty = dir("empty", vec![]);
    assert!(compute_stats(&empty).entries.is_empty());
    let tree = dir("root", vec![dir("nested", vec![leaf("empty.zip", 0)])]);
    assert_eq!(compute_stats(&tree).entries, [(FileCategory::Archive, 0, 1)]);
}

#[test]
fn stats_counts_files() {
    let tree = dir(
        "root",
        vec![
            leaf("movie.mp4", 1000),
            leaf("song.mp3", 500),
            leaf("photo.jpg", 200),
            leaf("readme.md", 50),
        ],
    );
    let stats = compute_stats(&tree);
    assert!(!stats.entries.is_empty());
    assert_eq!(stats.entries[0].0, FileCategory::Video);
    assert_eq!(stats.entries[0].1, 1000);
    assert_eq!(stats.entries[0].2, 1);
}

#[test]
fn stats_aggregates_category() {
    let tree = dir(
        "root",
        vec![leaf("a.rs", 100), leaf("b.py", 200), leaf("c.toml", 50)],
    );
    let stats = compute_stats(&tree);
    assert_eq!(stats.entries.len(), 1);
    assert_eq!(stats.entries[0].0, FileCategory::Code);
    assert_eq!(stats.entries[0].1, 350);
    assert_eq!(stats.entries[0].2, 3);
}

#[test]
fn stats_sorted_by_size() {
    let tree = dir(
        "root",
        vec![leaf("small.txt", 10), leaf("big.mp4", 9999), leaf("medium.zip", 500)],
    );
    let stats = compute_stats(&tree);
    for i in 1..stats.entries.len() {
        assert!(stats.entries[i - 1].1 >= stats.entries[i].1);
    }
    assert_eq!(
        stats.entries,
        [
            (FileCategory::Video, 9999, 1),
            (FileCategory::Archive, 500, 1),
            (FileCategory::Document, 10, 1),
        ]
    );
}

#[test]
fn node_matches_category_file() {
    let node = leaf("video.mp4", 100);
    assert!(node_matches_category(&node, FileCategory::Video));
    assert!(!node_matches_category(&node, FileCategory::Audio));
}

#[test]
fn node_matches_category_dir() {
    let tree = dir("root", vec![leaf("song.mp3", 50), leaf("readme.md", 10)]);
    assert!(node_matches_category(&tree, FileCategory::Audio));
    assert!(node_matches_category(&tree, FileCategory::Code));
    assert!(!node_matches_category(&tree, FileCategory::Video));
}

#[test]
fn categories_share_the_files_out() {
    let tree = dir(
        "root",
        vec![
            leaf("a.mp4", 7),
            leaf("b.bin", 11),
            dir("sub", vec![leaf("c.mp4", 13), leaf("d", 17)]),
        ],
    );
    let stats = compute_stats(&tree);
    let bytes: u64 = stats.entries.iter().map(|e| e.1).sum();
    let files: usize = stats.entries.iter().map(|e| e.2).sum();
    assert_eq!(bytes, tree.size());
    assert_eq!(files, 4);
}

#[test]
fn equally_large_categories_keep_their_order() {
    let tree = dir("root", vec![leaf("a.zip", 5), leaf("b.mp4", 5), leaf("c.png", 5)]);
    let found: Vec<FileCategory> =
        compute_stats(&tree).entries.iter().map(|e| e.0).collect();
    assert_eq!(found, [FileCategory::Video, FileCategory::Image, FileCategory::Archive]);
}

#[test]
fn cancelled_totals_are_not_given_out() {
    let tree = dir("root", vec![leaf("a.zip", 5)]);
    assert!(compute_stats_cancellable(&tree, &AtomicBool::new(true)).is_none());
    let stats = compute_stats_cancellable(&tree, &AtomicBool::new(false)).unwrap();
    assert_eq!(stats.entries, [(FileCategory::Archive, 5, 1)]);
}

#[test]
fn categories_have_labels_and_colours() {
    assert_eq!(FileCategory::Video.label(), "Videos");
    assert_eq!(FileCategory::Audio.label(), "Audio");
    assert_eq!(FileCategory::Other.label(), "Other");
    assert_eq!(FileCategory::Video.color(), Rgb { r: 192, g: 57, b: 43 });
    assert_eq!(FileCategory::Other.color(), Rgb { r: 93, g: 109, b: 126 });
}

#[test]
fn categories_are_summed_up_where_that_fits() {
    let tree = dir("root", vec![leaf("a.mp4", 200), leaf("b.rs", 30), leaf("c.rs", 7)]);
    assert_eq!(compute_stats(&tree).total_bytes(), Some(237));
    assert_eq!(CategoryStats { entries: vec![] }.total_bytes(), Some(0));
    let huge = |n| CategoryStats {
        entries: vec![(FileCategory::Code, u64::MAX - 1, 1), (FileCategory::Other, n, 1)],
    };
    assert_eq!(huge(1).total_bytes(), Some(u64::MAX));
    assert_eq!(huge(2).total_bytes(), None);
}
