use disk_cleaner::color::Rgb;
use disk_cleaner::fitting::{ellipsized, longest_fitting, path_leaf, path_tails};
use disk_cleaner::navigate::{breadcrumbs, find_node};
use disk_cleaner::path::NodePath;
use disk_cleaner::sizes::fmt_size_compact;
use disk_cleaner::tree::{dir, leaf, FileNode};
use disk_cleaner::treemap::{
    back_target, build_nested_tiles, darken, extension_color, nested_label, plan_treemap,
    scan_rank_palette, tile_clicked, treemap_total, TreemapAction, TreemapPlan, MAX_TOTAL_NESTED,
    MAX_VISIBLE_ENTRIES,
};

fn path(text: &str) -> NodePath {
    NodePath::new(text)
}

fn rgb(r: u8, g: u8, b: u8) -> Rgb {
    Rgb { r, g, b }
}

/// The plan with the threshold that a treemap uses: half a percent of all that
/// is shown.
fn plan(tree: &FileNode, zoom: Option<&NodePath>, show_hidden: bool) -> TreemapPlan {
    let total = treemap_total(tree, zoom, None, show_hidden);
    let threshold = (total as f64 * 0.005) as u64;
    plan_treemap(tree, zoom, None, show_hidden, threshold)
}

#[test]
fn find_node_root() {
    let tree = dir("root", vec![leaf("a.txt", 10)]);
    assert!(find_node(&tree, &path("root")).is_some());
}

#[test]
fn find_node_child() {
    let tree = dir("root", vec![leaf("a.txt", 10)]);
    assert!(find_node(&tree, &path("root/a.txt")).is_some());
}

#[test]
fn find_node_missing() {
    let tree = dir("root", vec![leaf("a.txt", 10)]);
    assert!(find_node(&tree, &path("missing")).is_none());
}

#[test]
fn find_node_nested() {
    let tree = dir("root", vec![dir("sub", vec![leaf("deep.txt", 5)])]);
    assert!(find_node(&tree, &path("root/sub/deep.txt")).is_some());
}

#[test]
fn breadcrumbs_root() {
    let tree = dir("root", vec![]);
    let bc = breadcrumbs(&tree, &path("root"));
    assert_eq!(bc.len(), 1);
    assert_eq!(bc[0].0, "root");
}

#[test]
fn breadcrumbs_nested() {
    let tree = dir("root", vec![dir("sub", vec![leaf("f.txt", 10)])]);
    let bc = breadcrumbs(&tree, &path("root/sub"));
    assert_eq!(bc.len(), 2);
    assert_eq!(bc[0].0, "root");
    assert_eq!(bc[1].0, "sub");
}

#[test]
fn breadcrumbs_deep() {
    let tree = dir("root", vec![dir("a", vec![dir("b", vec![leaf("c.txt", 1)])])]);
    let bc = breadcrumbs(&tree, &path("root/a/b"));
    assert_eq!(bc.len(), 3);
    assert_eq!(bc[2].0, "b");
}

#[test]
fn breadcrumbs_missing_returns_root() {
    let tree = dir("root", vec![leaf("a.txt", 10)]);
    let bc = breadcrumbs(&tree, &path("missing"));
    assert_eq!(bc.len(), 1);
}

#[test]
fn find_node_deeply_nested() {
    let tree = dir(
        "root",
        vec![dir("a", vec![dir("b", vec![dir("c", vec![leaf("deep.txt", 1)])])])],
    );
    assert!(find_node(&tree, &path("root/a/b/c/deep.txt")).is_some());
    assert!(find_node(&tree, &path("root/a/b/c")).is_some());
    assert!(find_node(&tree, &path("root/a/b/c/nope")).is_none());
}

#[test]
fn find_node_among_siblings() {
    let tree = dir(
        "root",
        vec![
            leaf("a.txt", 10),
            leaf("b.txt", 20),
            dir("sub", vec![leaf("c.txt", 5)]),
        ],
    );
    assert!(find_node(&tree, &path("root/b.txt")).is_some());
    assert!(find_node(&tree, &path("root/sub/c.txt")).is_some());
}

#[test]
fn breadcrumbs_deep_path() {
    let tree = dir(
        "root",
        vec![dir("a", vec![dir("b", vec![dir("c", vec![leaf("d.txt", 1)])])])],
    );
    let bc = breadcrumbs(&tree, &path("root/a/b/c"));
    assert_eq!(bc.len(), 4);
    assert_eq!(bc[0].0, "root");
    assert_eq!(bc[1].0, "a");
    assert_eq!(bc[2].0, "b");
    assert_eq!(bc[3].0, "c");
    assert_eq!(bc[3].1.to_text(), "root/a/b/c");
}

#[test]
fn breadcrumbs_to_file() {
    let tree = dir("root", vec![dir("sub", vec![leaf("file.txt", 10)])]);
    let bc = breadcrumbs(&tree, &path("root/sub/file.txt"));
    assert_eq!(bc.len(), 3);
    assert_eq!(bc[2].0, "file.txt");
}

#[test]
fn extension_color_video() {
    assert_eq!(extension_color("movie.mp4", false), rgb(192, 57, 43));
}

#[test]
fn extension_color_dir() {
    assert_eq!(extension_color("src", true), rgb(70, 75, 85));
}

#[test]
fn darken_reduces_rgb() {
    assert_eq!(darken(rgb(100, 150, 200), 30), rgb(70, 120, 170));
}

#[test]
fn darken_saturates_at_zero() {
    assert_eq!(darken(rgb(10, 20, 30), 50), rgb(0, 0, 0));
}

#[test]
fn extension_color_categories() {
    assert_eq!(extension_color("song.mp3", false), rgb(142, 68, 173));
    assert_eq!(extension_color("photo.png", false), rgb(39, 174, 96));
    assert_eq!(extension_color("backup.zip", false), rgb(211, 84, 0));
    assert_eq!(extension_color("main.rs", false), rgb(22, 160, 133));
    assert_eq!(extension_color("report.pdf", false), rgb(41, 128, 185));
    assert_eq!(extension_color("config.json", false), rgb(44, 62, 80));
    assert_eq!(extension_color("module.o", false), rgb(146, 43, 33));
    assert_eq!(extension_color("random.xyz", false), rgb(93, 109, 126));
}

#[test]
fn build_cache_basic() {
    let tree = dir(
        "root",
        vec![
            dir("big", vec![leaf("a.mp4", 500), leaf("b.rs", 200)]),
            leaf("c.txt", 300),
        ],
    );
    let plan = plan(&tree, None, true);
    assert_eq!(plan.entries.len(), 2);
    assert!(plan.other.is_none());
    assert_eq!(plan.view_size, 1000);
    assert_eq!(plan.view_size_label, "  (1000 B)");
    assert_eq!(plan.view_path.to_text(), "root");
}

#[test]
fn build_cache_with_zoom() {
    let tree = dir(
        "root",
        vec![
            dir("sub", vec![leaf("a.txt", 100), leaf("b.txt", 200)]),
            leaf("c.txt", 50),
        ],
    );
    let zoom = path("root/sub");
    let plan = plan(&tree, Some(&zoom), true);
    assert_eq!(plan.entries.len(), 2);
    assert_eq!(plan.view_size, 300);
    assert_eq!(plan.breadcrumbs.len(), 2);
    assert_eq!(back_target(&plan.breadcrumbs).unwrap().to_text(), "root");
}

#[test]
fn build_cache_other_bucket() {
    let mut children: Vec<FileNode> = vec![leaf("big.mp4", 10000)];
    for i in 0..20 {
        children.push(leaf(&format!("tiny_{i}.txt"), 1));
    }
    let tree = dir("root", children);
    let plan = plan(&tree, None, true);
    assert_eq!(plan.entries.len(), 1);
    let other = plan.other.as_ref().unwrap();
    assert_eq!(other.count, 20);
    assert_eq!(other.size, 20);
    assert_eq!(other.label_short, "Other (20)");
}

#[test]
fn build_cache_dir_tile_has_nested() {
    let tree = dir(
        "root",
        vec![dir(
            "sub",
            vec![leaf("a.mp4", 500), leaf("b.rs", 300), leaf("c.txt", 200)],
        )],
    );
    let plan = plan(&tree, None, true);
    assert_eq!(plan.entries.len(), 1);
    let tile = &plan.entries[0];
    assert!(tile.is_dir);
    assert_eq!(tile.child_count, Some(3));
    let node = find_node(&tree, &tile.path).unwrap();
    let nested = build_nested_tiles(node, &tile.path, MAX_TOTAL_NESTED);
    assert_eq!(nested.len(), 3);
    assert_eq!(nested[0].path.to_text(), "root/sub/a.mp4");
    assert_eq!(nested_label(&tile.path, &nested[0].path), "a.mp4");
    for entry in &nested {
        assert_eq!(entry.color, extension_color(&entry.name, entry.is_dir));
    }
    assert_eq!(nested[0].color, rgb(192, 57, 43));
}

#[test]
fn build_cache_hidden_filtered() {
    let tree = dir("root", vec![leaf(".hidden", 500), leaf("visible.txt", 500)]);
    let plan = plan(&tree, None, false);
    assert_eq!(plan.entries.len(), 1);
    assert_eq!(plan.entries[0].name, "visible.txt");
}

#[test]
fn build_cache_tile_colors_and_paths() {
    let tree = dir("root", vec![leaf("movie.mp4", 100)]);
    let plan = plan(&tree, None, true);
    let tile = &plan.entries[0];
    assert_eq!(tile.name, "movie.mp4");
    assert_eq!(tile.path.to_text(), "root/movie.mp4");
    assert_eq!(tile.color, scan_rank_palette(0));
    assert!(!tile.is_dir);
    assert_eq!(tile.child_count, None);
}

#[test]
fn root_view_uses_rank_palette_in_order() {
    let tree = dir(
        "root",
        vec![leaf("a.bin", 300), leaf("b.bin", 200), leaf("c.bin", 100)],
    );
    let plan = plan(&tree, None, true);
    assert_eq!(plan.entries.len(), 3);
    for (i, tile) in plan.entries.iter().enumerate() {
        assert_eq!(
            tile.color,
            scan_rank_palette(i),
            "tile {} ({}) should use rank palette",
            i,
            tile.name
        );
    }
}

#[test]
fn zoomed_view_uses_rank_palette() {
    let tree = dir("root", vec![dir("sub", vec![leaf("video.mp4", 300)])]);
    let zoomed = path("root/sub");
    let plan = plan(&tree, Some(&zoomed), true);
    assert_eq!(plan.entries.len(), 1);
    assert_eq!(plan.entries[0].color, scan_rank_palette(0));
}

#[test]
fn past_the_cap_the_smallest_are_folded() {
    let mut children: Vec<FileNode> = Vec::new();
    for i in 0..(MAX_VISIBLE_ENTRIES as u64 + 3) {
        children.push(dir(&format!("d{i}"), vec![leaf("f", 1000 + i)]));
    }
    let tree = dir("root", children);
    let plan = plan(&tree, None, true);
    assert_eq!(plan.entries.len(), MAX_VISIBLE_ENTRIES);
    assert_eq!(plan.entries[0].size, 1000 + MAX_VISIBLE_ENTRIES as u64 + 2);
    let other = plan.other.unwrap();
    assert_eq!(other.count, 3);
    assert_eq!(other.size, 1000 + 1001 + 1002);
    let shown: u64 = plan.entries.iter().map(|e| e.size).sum();
    assert_eq!(shown + other.size, tree.size());
}

#[test]
fn a_view_that_is_gone_shows_the_root() {
    let tree = dir("root", vec![leaf("a", 5), leaf("empty", 0)]);
    let gone = path("root/gone");
    let plan = plan(&tree, Some(&gone), true);
    assert_eq!(plan.view_path.to_text(), "root");
    assert_eq!(plan.entries.len(), 1);
}

#[test]
fn nested_tiles_stay_within_cap_and_budget() {
    let mut children: Vec<FileNode> = Vec::new();
    for i in 0..60 {
        children.push(leaf(&format!("f{i}"), 1 + i));
    }
    children.push(leaf("nothing", 0));
    let node = dir("sub", children);
    let at = path("root/sub");
    let all = build_nested_tiles(&node, &at, MAX_TOTAL_NESTED);
    assert_eq!(all.len(), 50);
    assert_eq!(all[0].size, 60);
    assert_eq!(build_nested_tiles(&node, &at, 7).len(), 7);
    assert!(build_nested_tiles(&node, &at, 0).is_empty());
}

#[test]
fn clicks_zoom_into_directories() {
    let dir_click = tile_clicked(&path("root/sub"), true);
    assert_eq!(dir_click.len(), 2);
    assert!(matches!(&dir_click[0], TreemapAction::ZoomTo(p) if p.to_text() == "root/sub"));
    assert!(matches!(&dir_click[1], TreemapAction::Focus(p) if p.to_text() == "root/sub"));
    let file_click = tile_clicked(&path("root/f"), false);
    assert_eq!(file_click.len(), 1);
    assert!(matches!(&file_click[0], TreemapAction::Focus(p) if p.to_text() == "root/f"));
    assert!(back_target(&breadcrumbs(&dir("root", vec![]), &path("root"))).is_none());
}

#[test]
fn clicks_hand_paths_on_as_they_are_written() {
    let odd = path("root//sub/");
    for action in tile_clicked(&odd, true) {
        match action {
            TreemapAction::ZoomTo(p) | TreemapAction::Focus(p) => {
                assert_eq!(p.to_text(), "root//sub/");
            }
        }
    }
    let tree = dir("x//root/", vec![dir("sub", vec![dir("deep", vec![])])]);
    let crumbs = breadcrumbs(&tree, &path("x/root/sub/deep"));
    assert_eq!(back_target(&crumbs).unwrap().to_text(), "x//root/sub");
}

#[test]
fn nested_labels_start_at_the_tile() {
    assert_eq!(nested_label(&path("/a/b"), &path("/a/b/c/d")), "c/d");
    assert_eq!(nested_label(&path("/x"), &path("/a/b/c")), "c");
}

/// The size in floating point.
fn reference(bytes: u64) -> String {
    let b = bytes as f64;
    if b < 1024.0 {
        return format!("{} B", bytes);
    }
    let mut value = b / 1024.0;
    let mut unit = "KB";
    for next in ["MB", "GB"] {
        let limit = if next == "MB" { 1024.0 * 1024.0 } else { 1024.0 * 1024.0 * 1024.0 };
        if b >= limit {
            value /= 1024.0;
            unit = next;
        }
    }
    if value < 10.0 {
        format!("{:.1} {}", value, unit)
    } else {
        format!("{:.0} {}", value, unit)
    }
}

#[test]
fn compact_sizes_are_those_of_floating_point() {
    let mut samples: Vec<u64> = vec![0, 1, 1023, 1024, 1025, 1536, 10239, 10240, 10241, u64::MAX];
    for shift in 10..64 {
        for delta in 0..3u64 {
            samples.push((1u64 << shift) + delta);
            samples.push((1u64 << shift) - delta);
            samples.push((1u64 << shift) / 20 * 31 + delta);
        }
    }
    for step in 0..2000u64 {
        samples.push(1024 + step * 51);
        samples.push(1_048_576 + step * 52_429);
        samples.push(1_073_741_824 + step * 53_687_091);
    }
    for bytes in samples {
        assert_eq!(fmt_size_compact(bytes), reference(bytes), "{bytes}");
    }
}

#[test]
fn labels_are_cut_to_what_fits() {
    assert_eq!(longest_fitting(10, &|n: usize| n <= 6), 6);
    assert_eq!(longest_fitting(10, &|_: usize| true), 10);
    assert_eq!(longest_fitting(10, &|_: usize| false), 0);
    assert_eq!(ellipsized("größer", 3), "grö…");
    assert_eq!(path_tails("/a/b/c"), vec!["…/b/c", "…/c"]);
    assert_eq!(path_leaf("/a/b/c"), Some(String::from("c")));
    assert_eq!(path_leaf("//"), None);
}
