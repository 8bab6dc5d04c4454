use bumpalo::Bump;

use disk_cleaner::arena_scanner::{arena_scan_directory, ArenaFileNode};
use disk_cleaner::bulk::{parse_bulk, BulkEntry};
use disk_cleaner::extd::{open_outcome, parse_entries, query_directory, Page};
use disk_cleaner::path::{NodePath, PathSet};
use disk_cleaner::scanner::{
    checked_total, dir_name, disk_usage, empty_dir, format_fallback_summary, in_parallel,
    is_hidden_from_metadata, scan_directory, sort_out, visit, walk_dir, walk_dir_bulk, EntryKind,
    FallbackKind, ScanProgress, Visit, PAR_THRESHOLD,
};
use disk_cleaner::shape::is_sound;
use disk_cleaner::tree::{leaf, FileNode};

fn text(s: &str) -> String {
    String::from(s)
}

fn file(name: &str, size: u64) -> BulkEntry {
    BulkEntry { name: text(name), is_dir: false, size, hidden: name.starts_with('.') }
}

fn folder(name: &str) -> BulkEntry {
    BulkEntry { name: text(name), is_dir: true, size: 0, hidden: name.starts_with('.') }
}

#[test]
fn scan_empty_directory() {
    let progress = ScanProgress::new();
    let root = scan_directory("/tmp/x", walk_dir(text("x"), false, vec![]));
    assert!(root.is_dir());
    assert!(root.children().is_empty());
    assert_eq!(root.size(), 0);
    assert!(root.expanded());
    assert_eq!(progress.file_count, 0);
    assert_eq!(root.name(), "/tmp/x");
}

#[test]
fn scan_flat_files() {
    let listing = sort_out(vec![file("a.txt", 4096), file("b.txt", 4096)]);
    let mut progress = ScanProgress::new();
    progress.record_files(listing.files.len() as u64, listing.bytes);
    let root = scan_directory("/t", walk_dir_bulk(text("t"), false, listing.files, vec![]));
    assert_eq!(root.children().len(), 2);
    assert_eq!(progress.file_count, 2);
    assert_eq!(root.size(), 4096 * 2);
    assert_eq!(progress.total_size, 4096 * 2);
}

#[test]
fn scan_nested_directories() {
    let top = sort_out(vec![folder("sub"), file("root.txt", 512)]);
    assert_eq!(top.dirs, vec![(text("sub"), false)]);
    let inner = sort_out(vec![file("file.bin", 512)]);
    let sub = walk_dir_bulk(text("sub"), false, inner.files, vec![]);
    let root = scan_directory("/t", walk_dir_bulk(text("t"), false, top.files, vec![sub]));
    assert_eq!(root.children().len(), 2);
    assert_eq!(root.size(), 1024);
    let sub_node = root.children().iter().find(|c| c.name() == "sub").unwrap();
    assert!(sub_node.is_dir());
    assert_eq!(sub_node.children().len(), 1);
    assert!(is_sound(&root));
}

#[test]
fn the_progress_of_a_scan_counts_the_files_of_its_tree() {
    let mut progress = ScanProgress::new();
    let inner = sort_out(vec![file("a", 5), file("b", 7)]);
    progress.record_files(inner.files.len() as u64, inner.bytes);
    let sub = walk_dir_bulk(text("sub"), false, inner.files, vec![]);
    let top = sort_out(vec![folder("sub"), file("c", 11)]);
    progress.record_files(top.files.len() as u64, top.bytes);
    let root = scan_directory("/t", walk_dir_bulk(text("t"), false, top.files, vec![sub]));
    assert_eq!((progress.file_count, progress.total_size), (3, root.size()));
    progress.record_files(1, u64::MAX);
    assert_eq!((progress.file_count, progress.total_size), (4, 22));
}

#[test]
fn root_is_expanded_by_default() {
    assert!(scan_directory("/t", empty_dir(text("t"), false)).expanded());
}

#[test]
fn children_not_expanded_by_default() {
    let child = empty_dir(text("child"), false);
    let root = scan_directory("/t", walk_dir(text("t"), false, vec![child]));
    assert!(!root.children()[0].expanded());
}

#[test]
fn files_take_whole_blocks() {
    assert_eq!(disk_usage(8), 4096);
    assert_eq!(disk_usage(0), 0);
}

#[test]
fn entries_are_hidden_by_flag_or_by_dot() {
    assert!(is_hidden_from_metadata("visible_name.txt", 0x8000));
    assert!(!is_hidden_from_metadata("normal.txt", 0x40));
    assert!(is_hidden_from_metadata(".profile", 0));
}

#[test]
fn cancelled_scan_returns_empty_tree() {
    let skip = PathSet::new();
    let entry = NodePath::new("/t/sub");
    assert_eq!(visit(true, EntryKind::Dir, &entry, &skip), Visit::Ignore);
    assert_eq!(visit(true, EntryKind::File, &entry, &skip), Visit::Ignore);
    let root = scan_directory("/t", empty_dir(text("t"), false));
    assert!(root.children().is_empty());
    assert_eq!(root.size(), 0);
}

#[test]
fn entries_are_visited_by_what_they_are() {
    let mut skip = PathSet::new();
    skip.insert(&NodePath::new("/proc"));
    let proc = NodePath::new("/proc");
    let home = NodePath::new("/home");
    assert_eq!(visit(false, EntryKind::Dir, &proc, &skip), Visit::Ignore);
    assert_eq!(visit(false, EntryKind::Dir, &home, &skip), Visit::Descend);
    assert_eq!(visit(false, EntryKind::File, &proc, &skip), Visit::Record);
    assert_eq!(visit(false, EntryKind::Other, &home, &skip), Visit::Ignore);
}

#[test]
fn a_walked_directory_lists_its_largest_entries_first() {
    let node = walk_dir(text("t"), true, vec![leaf("s", 1), leaf("l", 9), leaf("m", 5)]);
    let names: Vec<&str> = node.children().iter().map(|c| c.name()).collect();
    assert_eq!(names, vec!["l", "m", "s"]);
    assert!(node.is_hidden());
    assert_eq!(node.size(), 15);
    let bulk = walk_dir_bulk(text("t"), false, vec![leaf("s", 1)], vec![empty_dir(text("d"), false)]);
    let names: Vec<&str> = bulk.children().iter().map(|c| c.name()).collect();
    assert_eq!(names, vec!["s", "d"]);
}

#[test]
fn sums_that_do_not_fit_are_noticed() {
    assert_eq!(checked_total(&[leaf("a", 3), leaf("b", 4)]), Some(7));
    let huge = || walk_dir(text("d"), false, vec![leaf("a", u64::MAX / 2), leaf("b", u64::MAX / 2)]);
    assert_eq!(checked_total(&[huge()]), Some(u64::MAX - 1));
    assert_eq!(checked_total(&[huge(), huge()]), None);
}

#[test]
fn unsound_trees_are_noticed() {
    assert!(is_sound(&leaf("a", 3)));
    let wrong = FileNode::new_dir(text("d"), 5, vec![leaf("a", 3)], false);
    assert!(!is_sound(&wrong));
}

#[test]
fn directories_are_named_after_their_last_part() {
    assert_eq!(dir_name(&NodePath::new("/home/user")), "user");
    assert_eq!(dir_name(&NodePath::new("/")), "/");
    assert_eq!(dir_name(&NodePath::new("a/..")), "a/..");
}

#[test]
fn many_subdirectories_are_scanned_in_parallel() {
    assert!(!in_parallel(PAR_THRESHOLD));
    assert!(in_parallel(PAR_THRESHOLD + 1));
}

#[test]
fn fallbacks_are_counted_and_summed_up() {
    let mut progress = ScanProgress::new();
    progress.record_fallback(FallbackKind::AccessDenied, "/a", "no");
    progress.record_fallback(FallbackKind::BulkScan, "/b", "bad");
    progress.record_fallback(FallbackKind::Open, "/c", "gone");
    assert_eq!(progress.fallback_count, 3);
    assert_eq!(progress.access_denied_fallback_count, 1);
    assert_eq!(progress.bulk_scan_fallback_count, 1);
    assert_eq!(progress.fallback_details.len(), 3);
    assert_eq!(progress.fallback_details[1].path, "/b");
    assert_eq!(progress.fallback_details[2].kind.label(), "open issue");
    assert_eq!(format_fallback_summary(0, 0, 0), None);
    assert_eq!(
        format_fallback_summary(1, 1, 0).unwrap(),
        "compatibility mode used for 1 protected folder"
    );
    assert_eq!(
        format_fallback_summary(2, 2, 0).unwrap(),
        "compatibility mode used for 2 protected folders"
    );
    assert_eq!(
        format_fallback_summary(6, 1, 3).unwrap(),
        "compatibility mode used for 6 folders (1 protected, 2 open issue, 3 scan issue)"
    );
    assert_eq!(
        format_fallback_summary(1, 0, 1).unwrap(),
        "compatibility mode used for 1 folder (1 scan issue)"
    );
}

fn put(buf: &mut [u8], at: usize, bytes: &[u8]) {
    buf[at..at + bytes.len()].copy_from_slice(bytes);
}

fn bulk_record(name: &str, kind: u32, flags: u32, size: Option<u64>) -> Vec<u8> {
    let name_at = if size.is_some() { 48 } else { 40 };
    let mut record = vec![0u8; (name_at + name.len() + 1 + 7) / 8 * 8];
    let length = record.len() as u32;
    put(&mut record, 0, &length.to_le_bytes());
    let returned: u32 = if size.is_some() { 4 } else { 0 };
    put(&mut record, 16, &returned.to_le_bytes());
    put(&mut record, 24, &(name_at as u32 - 24).to_le_bytes());
    put(&mut record, 28, &(name.len() as u32 + 1).to_le_bytes());
    put(&mut record, 32, &kind.to_le_bytes());
    put(&mut record, 36, &flags.to_le_bytes());
    if let Some(size) = size {
        put(&mut record, 40, &size.to_le_bytes());
    }
    put(&mut record, name_at, name.as_bytes());
    record
}

#[test]
fn bulk_records_are_read_one_after_the_other() {
    let mut buf = bulk_record("größe.txt", 1, 0, Some(8192));
    buf.extend(bulk_record("src", 2, 0x8000, None));
    buf.extend(bulk_record("link", 5, 0, None));
    buf.extend(bulk_record(".x", 1, 0, Some(1)));
    let entries = parse_bulk(&buf, 4);
    assert_eq!(entries.len(), 3);
    assert_eq!(entries[0].name, "größe.txt");
    assert_eq!((entries[0].size, entries[0].is_dir, entries[0].hidden), (8192, false, false));
    assert_eq!((entries[1].name.as_str(), entries[1].is_dir, entries[1].hidden), ("src", true, true));
    assert!(entries[2].hidden);
    assert_eq!(parse_bulk(&buf, 1).len(), 1);
    assert!(parse_bulk(&buf[..30], 1).is_empty());
}

fn extd_record(name: &str, attributes: u32, tag: u32, size: u64, last: bool) -> Vec<u8> {
    let units: Vec<u16> = name.encode_utf16().collect();
    let mut record = vec![0u8; (88 + units.len() * 2 + 7) / 8 * 8];
    let next = if last { 0 } else { record.len() as u32 };
    put(&mut record, 0, &next.to_le_bytes());
    put(&mut record, 40, &size.to_le_bytes());
    put(&mut record, 56, &attributes.to_le_bytes());
    put(&mut record, 60, &(units.len() as u32 * 2).to_le_bytes());
    put(&mut record, 68, &tag.to_le_bytes());
    for (i, unit) in units.iter().enumerate() {
        put(&mut record, 88 + 2 * i, &unit.to_le_bytes());
    }
    record
}

#[test]
fn windows_records_are_read_one_after_the_other() {
    let mut buf = extd_record(".", 0x10, 0, 0, false);
    buf.extend(extd_record("..", 0x10, 0, 0, false));
    buf.extend(extd_record("Ü.txt", 0x2, 0, 77, false));
    buf.extend(extd_record("junction", 0x410, 0xA000_0003, 0, false));
    buf.extend(extd_record("dir", 0x10, 0, 5, true));
    let entries = parse_entries(&buf);
    assert_eq!(entries.len(), 2);
    assert_eq!(entries[0].name, "Ü.txt");
    assert_eq!((entries[0].size, entries[0].hidden), (77, true));
    assert_eq!((entries[1].name.as_str(), entries[1].size), ("dir", 0));
    assert!(entries[1].is_dir);
    assert!(parse_entries(&buf[..50]).is_empty());
}

#[test]
fn opening_fails_with_a_negative_status() {
    assert!(open_outcome(0).is_ok());
    assert!(open_outcome(259).is_ok());
    let denied = open_outcome(0xC000_0022u32 as i32).unwrap_err();
    assert_eq!(denied.kind, FallbackKind::AccessDenied);
    assert_eq!(denied.message, "NtOpenFile failed with NTSTATUS 0xc0000022");
    let other = open_outcome(0xC000_0034u32 as i32).unwrap_err();
    assert_eq!(other.kind, FallbackKind::Open);
    assert_eq!(other.message, "NtOpenFile failed with NTSTATUS 0xc0000034");
}

#[test]
fn listings_end_where_there_are_no_more_files() {
    assert_eq!(query_directory(1, None), Page::Filled);
    assert_eq!(query_directory(0, Some(18)), Page::End);
    assert_eq!(query_directory(0, Some(38)), Page::End);
    assert_eq!(query_directory(0, Some(5)), Page::Failed);
    assert_eq!(query_directory(0, None), Page::Failed);
}

#[test]
fn arena_scan_matches_standard_scan() {
    let bump = Bump::new();
    let mut arena = ArenaFileNode::empty_dir(&bump, "t", false);
    let mut dirs = Vec::new();
    let mut files = 0;
    for i in 0..5 {
        let name = format!("dir_{i}");
        let mut sub = ArenaFileNode::empty_dir(&bump, &name, false);
        let mut children = Vec::new();
        for j in 0..3 {
            let child = format!("file_{j}.bin");
            assert!(sub.add_child(ArenaFileNode::new_file(&bump, &child, 1024 + i, false)));
            children.push(FileNode::new_file(child, 1024 + i, false));
            files += 1;
        }
        assert!(arena.add_child(sub));
        dirs.push(walk_dir(name, false, children));
    }
    let std_root = scan_directory("/t", walk_dir(text("t"), false, dirs));
    let arena_root = arena_scan_directory("/t", arena);
    assert_eq!(files, 15);
    assert_eq!(std_root.size(), arena_root.size());
    assert_eq!(std_root.children().len(), arena_root.children().len());
    assert_eq!(std_root.name(), arena_root.name());
    for (a, b) in std_root.children().iter().zip(arena_root.children()) {
        assert_eq!(a.name(), b.name());
        assert_eq!(a.size(), b.size());
        assert_eq!(a.children().len(), b.children().len());
    }
    assert_eq!(arena_root.children()[0].name(), "dir_4");
}

#[test]
fn arena_scan_empty_directory() {
    let bump = Bump::new();
    let root = arena_scan_directory("/t", ArenaFileNode::empty_dir(&bump, "t", false));
    assert!(root.is_dir());
    assert!(root.children().is_empty());
    assert_eq!(root.size(), 0);
    assert!(root.expanded());
}

#[test]
fn arena_nodes_add_up_and_keep_their_names() {
    let bump = Bump::new();
    let mut top = ArenaFileNode::empty_dir(&bump, ".top", true);
    assert!(top.add_child(ArenaFileNode::new_file(&bump, "small", 5, false)));
    assert!(top.add_child(ArenaFileNode::new_file(&bump, ".large", 7, true)));
    assert!(!top.add_child(ArenaFileNode::new_file(&bump, "huge", u64::MAX, false)));
    assert_eq!(top.size(), 12);
    let mut file = ArenaFileNode::new_file(&bump, "f", 1, false);
    assert!(!file.add_child(ArenaFileNode::new_file(&bump, "g", 1, false)));
    top.sort_arena_children();
    let node = top.into_standard();
    assert!(node.is_hidden() && !node.expanded());
    let names: Vec<&str> = node.children().iter().map(|c| c.name()).collect();
    assert_eq!(names, vec![".large", "small"]);
    assert!(node.children()[0].is_hidden());
    assert!(file.into_standard().children().is_empty());
}
