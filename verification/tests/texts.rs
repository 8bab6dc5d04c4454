use disk_cleaner::args::{expand, ArgError, ArgStep, Args};
use disk_cleaner::config::{apply_found, config_path, load_config, save_config};
use disk_cleaner::intern::PathInterner;
use disk_cleaner::labels;
use disk_cleaner::listing::{heading, write_node};
use disk_cleaner::measure::{
    count_nodes, expand_all, expand_to_depth, late_frames, parse_count, BenchConfig, BenchError,
    BenchStep, Stats,
};
use disk_cleaner::path::{NodePath, PathSet};
use disk_cleaner::report::{format_elapsed, report_name, write_fallback_report};
use disk_cleaner::scanner::{dir_name, FallbackKind, ScanFallbackDetail};
use disk_cleaner::tree::{dir, leaf};

fn path(text: &str) -> NodePath {
    NodePath::new(text)
}

#[test]
fn durations_are_those_of_floating_point() {
    assert_eq!(format_elapsed(7325, 0), "2h 02m");
    assert_eq!(format_elapsed(3600, 0), "1h 00m");
    assert_eq!(format_elapsed(61, 5), "1m 01s");
    assert_eq!(format_elapsed(59, 999_999_999), "59s");
    assert_eq!(format_elapsed(1, 0), "1s");
    let mut samples: Vec<u32> = vec![0, 1, 49_999_999, 50_000_000, 50_000_001, 999_999_999];
    for tenth in 0..10u32 {
        for offset in [49_999_999u32, 50_000_000, 50_000_001, 0, 99_999_999] {
            samples.push(tenth * 100_000_000 + offset);
        }
    }
    for nanos in samples {
        let seconds = std::time::Duration::new(0, nanos).as_secs_f64();
        assert_eq!(format_elapsed(0, nanos), format!("{:.1}s", seconds), "{nanos}");
    }
}

#[test]
fn sizes_are_those_of_bytesize() {
    for bytes in [0, 1, 1023, 1024, 1_500_000, 123_456_789_012, u64::MAX] {
        assert_eq!(labels::size_text(bytes), bytesize::ByteSize::b(bytes).to_string());
    }
    assert_eq!(labels::size_text(512), "512 B");
    let size = labels::size_text(2048);
    assert_eq!(labels::scan_summary(3, 2048), format!("3 files, {size}"));
    assert_eq!(labels::scanned("/x", 3, 2048), format!("Scanned: /x (3 files, {size})"));
    assert_eq!(labels::scan_progress(3, 2048), format!("3 files — {size}"));
    assert_eq!(labels::printed(3, 2048, None), format!("3 files, 2048 bytes ({size})"));
    assert_eq!(
        labels::printed(3, 2048, Some("note")),
        format!("3 files, 2048 bytes ({size}) [note]")
    );
    assert_eq!(labels::used_bytes(10, 4), 6);
    assert_eq!(labels::used_bytes(4, 10), 0);
    assert_eq!(labels::disk_usage(900, 300), "Disk: 600 B used / 900 B (300 B free)");
    assert_eq!(labels::volume_usage(900, 300), "600 B used of 900 B");
    assert_eq!(labels::hint("/x", 5, Some(2)), "/x\n5 B — 2 items");
    assert_eq!(labels::hint("/x", 5, None), "/x\n5 B");
    assert_eq!(labels::row_size(5), format!("{:>10}", "5 B"));
    assert_eq!(labels::align_right("0123456789ab"), "0123456789ab");
    assert_eq!(labels::reclaim(5), "You can reclaim 5 B");
    assert_eq!(labels::clean(5), "Clean 5 B");
    assert_eq!(labels::group(5, 2), "5 B — 2 items");
    assert_eq!(labels::summary_text(1, "S"), "1 files, S");
    assert_eq!(labels::scanned_text("p", 1, "S"), "Scanned: p (1 files, S)");
    assert_eq!(labels::progress_text(1, "S"), "1 files — S");
    assert_eq!(labels::printed_text(1, 2, "S", None), "1 files, 2 bytes (S)");
    assert_eq!(labels::disk_text("a", "b", "c"), "Disk: a used / b (c free)");
    assert_eq!(labels::volume_text("a", "b"), "a used of b");
    assert_eq!(labels::row_hint_text("p", "S", Some(1)), "p\nS — 1 items");
    assert_eq!(labels::reclaim_text("S"), "You can reclaim S");
    assert_eq!(labels::clean_text("S"), "Clean S");
    assert_eq!(labels::group_text("S", 3), "S — 3 items");
}

#[test]
fn what_was_saved_is_loaded() {
    for last in ["/home/user", "", "C:\\a \"quoted\"\n", "größe/😀"] {
        for shown in [true, false] {
            let document = save_config(last, shown);
            assert_eq!(load_config(Some(&document)), (Some(String::from(last)), shown));
        }
    }
    let document = save_config("/x", true);
    let value: serde_json::Value = serde_json::from_str(&document).unwrap();
    assert_eq!(value["last_path"], "/x");
    assert_eq!(value["show_hidden"], true);
}

#[test]
fn what_cannot_be_read_is_not_there() {
    assert_eq!(load_config(None), (None, false));
    assert_eq!(load_config(Some("not json")), (None, false));
    assert_eq!(load_config(Some("[1, 2]")), (None, false));
    assert_eq!(load_config(Some("{\"show_hidden\": true}")), (None, true));
    assert_eq!(
        load_config(Some("{\"last_path\": 3, \"show_hidden\": \"yes\"}")),
        (None, false)
    );
    assert_eq!(apply_found(Some(String::from("/a")), None), (Some(String::from("/a")), false));
    assert_eq!(
        config_path(Some(&path("/home/u/.config"))).unwrap().to_text(),
        "/home/u/.config/disk-cleaner/config.json"
    );
    assert!(config_path(None).is_none());
}

#[test]
fn reports_list_every_directory() {
    assert_eq!(report_name(12), "windows-compatibility-report-12.txt");
    let empty = write_fallback_report(None, None, 0, 0, 0, &vec![]);
    assert_eq!(
        empty,
        "Disk Cleaner Windows compatibility report\n========================================\n\n\
         Captured entries: 0\n\nNo compatibility details were recorded.\n"
    );
    let details = vec![
        ScanFallbackDetail {
            kind: FallbackKind::AccessDenied,
            path: String::from("C:\\a"),
            error: String::from("denied"),
        },
        ScanFallbackDetail {
            kind: FallbackKind::BulkScan,
            path: String::from("C:\\b"),
            error: String::from("broken"),
        },
    ];
    let report = write_fallback_report(Some("C:\\"), Some((61, 0)), 2, 1, 1, &details);
    assert_eq!(
        report,
        "Disk Cleaner Windows compatibility report\n========================================\n\n\
         Scan path: C:\\\nScan duration: 1m 01s\n\
         Summary: compatibility mode used for 2 folders (1 protected, 1 scan issue)\n\
         Captured entries: 2\n\nTechnical details:\n\n\
         1. [protected] C:\\a\n   denied\n2. [scan issue] C:\\b\n   broken\n"
    );
}

#[test]
fn arguments_are_taken_one_by_one() {
    let mut args = Args::new();
    assert_eq!(args.take("--screenshot"), ArgStep::Continue);
    assert_eq!(args.take("-shot"), ArgStep::Continue);
    assert_eq!(args.take("/tmp"), ArgStep::Scan);
    assert_eq!(args.take("/var"), ArgStep::Refuse(ArgError::ManyPaths));
    assert_eq!(args.take("--what"), ArgStep::Refuse(ArgError::UnknownOption));
    assert_eq!(args.take("-h"), ArgStep::Help);
    assert_eq!(args.take("--help"), ArgStep::Help);
    assert_eq!(args.finish(), Ok(Some(String::from("-shot"))));
    let mut open = Args::new();
    assert_eq!(open.take("--screenshot"), ArgStep::Continue);
    assert_eq!(open.finish(), Err(ArgError::MissingPrefix));
    assert_eq!(Args::new().finish(), Ok(None));
    assert_eq!(
        ArgError::MissingPrefix.message(""),
        "Error: --screenshot requires a prefix argument"
    );
    assert_eq!(ArgError::UnknownOption.message("-x"), "Unknown option: -x");
    assert_eq!(ArgError::ManyPaths.message(""), "Error: multiple paths provided");
    assert_eq!(ArgError::NotADirectory.message("f"), "Error: not a directory: f");
    assert!(ArgError::UnknownOption.shows_help() && ArgError::ManyPaths.shows_help());
    assert!(!ArgError::MissingPrefix.shows_help() && !ArgError::NotADirectory.shows_help());
}

#[test]
fn a_tilde_stands_for_the_users_directory() {
    let home = path("/home/u");
    assert_eq!(expand("~", Some(&home)).to_text(), "/home/u/");
    assert_eq!(expand("~/x/y", Some(&home)).to_text(), "/home/u/x/y");
    assert_eq!(expand("~x", Some(&home)).to_text(), "~x");
    assert_eq!(expand("/abs", Some(&home)).to_text(), "/abs");
    assert_eq!(expand("~/x", None).to_text(), "~/x");
    assert_eq!(expand("../x//y/", Some(&home)).to_text(), "../x//y/");
}

#[test]
fn equal_paths_share_their_text() {
    let mut interner = PathInterner::new();
    let a = interner.intern(&path("/a/b"));
    let b = interner.intern_str("/a/b");
    assert!(std::sync::Arc::ptr_eq(&a, &b));
    assert_eq!(a.as_str(), "/a/b");
    interner.clear();
    let c = interner.intern_str("/a/b");
    assert!(!std::sync::Arc::ptr_eq(&a, &c));
}

#[test]
fn paths_are_those_of_the_standard_library() {
    for text in [
        "", ".", "..", "/", "//", "/a", "a", "a/", "./a", "a/./b", "a//b", "/a/../b", "./", "a/.",
        "/.", "~/x", "a b/ü", "//a//b//", "/a/./b/.", "a/b//c/./d/", "a/b/../..",
    ] {
        let ours = path(text);
        let theirs = std::path::Path::new(text);
        assert_eq!(ours.to_text(), theirs.to_string_lossy(), "{text}");
        assert_eq!(
            ours.file_name(),
            theirs.file_name().map(|n| n.to_str().unwrap()),
            "{text}"
        );
        assert_eq!(
            ours.parent().map(|p| p.to_text()),
            theirs.parent().map(|p| p.to_string_lossy().into_owned()),
            "{text}"
        );
        for more in ["x", "/x", "./x", "x/y", "x//y/", ""] {
            let joined = theirs.join(more);
            assert_eq!(ours.join(more).to_text(), joined.to_string_lossy(), "{text} {more}");
            assert_eq!(
                ours.join(more).parent().map(|p| p.to_text()),
                joined.parent().map(|p| p.to_string_lossy().into_owned()),
                "{text} {more}"
            );
        }
        for base in ["", "/", "a", "/a", ".", "a//b"] {
            assert_eq!(
                ours.text_below(&path(base)),
                theirs.strip_prefix(base).ok().map(|p| p.to_string_lossy().into_owned()),
                "{text} {base}"
            );
            assert_eq!(ours == path(base), theirs == std::path::Path::new(base), "{text} {base}");
        }
        assert!(NodePath::new(&ours.to_text()).same(&ours), "{text}");
    }
    assert!(path("a/b").same(&path("a//./b/")));
    assert!(path("/a").contains(&path("/a/b")) && !path("/a").contains(&path("/ab")));
    assert_eq!(path("/a/b/c").text_below(&path("/a")), Some(String::from("b/c")));
    assert_eq!(path("/a").text_below(&path("/b")), None);
}

#[test]
fn a_path_is_shown_and_kept_as_it_is_written() {
    let odd = path("/a//b/./c/");
    assert!(odd.same(&path("/a/b/c")));
    assert_eq!(odd.to_text(), "/a//b/./c/");
    assert_eq!(odd.join("d").to_text(), "/a//b/./c/d");
    assert_eq!(odd.clone().to_text(), "/a//b/./c/");
    assert_eq!(odd.parent().unwrap().to_text(), "/a//b");
    assert_eq!(odd.join("d").text_below(&path("/a")).unwrap(), "b/./c/d");
    let mut interner = PathInterner::new();
    assert_eq!(interner.intern(&odd).as_str(), "/a//b/./c/");
    assert_eq!(interner.intern(&path("/a/b/c")).as_str(), "/a/b/c");
}

#[test]
fn components_lead_to_a_path_where_there_are_other_separators() {
    let names = vec![String::from("C:"), String::from("a"), String::from("b.txt")];
    let file = NodePath::from_components(&names);
    assert_eq!(file.to_text(), "C:/a/b.txt");
    assert_eq!(file.file_name(), Some("b.txt"));
    assert_eq!(dir_name(&NodePath::from_components(&names[..2].to_vec())), "a");
    assert_eq!(NodePath::from_components(&vec![]).to_text(), "");
}

#[test]
fn sets_of_paths_keep_their_order() {
    let mut set = PathSet::new();
    assert!(set.insert(&path("b")) && set.insert(&path("a")) && !set.insert(&path("b/")));
    assert_eq!(set.len(), 2);
    let members: Vec<String> = set.members().iter().map(|p| p.to_text()).collect();
    assert_eq!(members.len(), 2);
    assert!(set.contains(&path("a")) && set.remove(&path("a")) && !set.remove(&path("a")));
    set.clear();
    assert!(set.is_empty());
}

#[test]
fn listings_are_in_alphabetical_order() {
    let tree = dir(
        "/r",
        vec![leaf("b", 2), dir("a", vec![leaf("z", 5), leaf("y", 6)]), leaf("Z", 1)],
    );
    let mut whole = heading("walker", "/r");
    write_node(&mut whole, &tree, "", true);
    assert_eq!(
        whole,
        "# scanner=walker root=/r\n\
         D\t14\t3\t//r\nF\t1\t//r/Z\nD\t11\t2\t//r/a\nF\t6\t//r/a/y\nF\t5\t//r/a/z\nF\t2\t//r/b\n"
    );
    let mut folders = String::new();
    write_node(&mut folders, &tree, "p", false);
    assert_eq!(folders, "D\t14\t3\tp//r\nD\t11\t2\tp//r/a\n");
}

#[test]
fn measurements_are_summed_up() {
    let stats = Stats::from_durations(vec![30, 10, 20, 41]);
    assert_eq!((stats.min, stats.max, stats.median, stats.mean), (10, 41, 30, 25));
    assert_eq!(stats.values, vec![10, 20, 30, 41]);
    assert_eq!(Stats::from_durations(vec![7]).median, 7);
    assert_eq!(late_frames(&[16_000_000, 16_000_001, 5, 99_000_000]), 2);
    assert_eq!(late_frames(&[]), 0);
}

#[test]
fn trees_are_counted_and_shown_whole() {
    let build = || {
        dir("r", vec![leaf("s", 1), dir("a", vec![dir("b", vec![leaf("x", 9), leaf("y", 10)])])])
    };
    assert_eq!(count_nodes(&build()), 6);
    let mut two = build();
    expand_to_depth(&mut two, 0, 2);
    assert!(two.expanded() && two.children()[0].expanded());
    assert!(!two.children()[0].children()[0].expanded());
    assert_eq!(two.children()[0].name(), "a");
    let mut all = build();
    expand_all(&mut all);
    let b = &all.children()[0].children()[0];
    assert!(b.expanded());
    assert_eq!(b.children()[0].name(), "y");
    let mut none = build();
    expand_to_depth(&mut none, 3, 3);
    assert!(!none.expanded());
}

#[test]
fn counts_are_those_of_the_standard_library() {
    for text in ["0", "7", "+7", "007", "18446744073709551615", "18446744073709551616", "", "+",
        "-1", "1x", " 1", "1 ", "٣"]
    {
        assert_eq!(parse_count(text), text.parse::<usize>().ok(), "{text}");
    }
}

#[test]
fn bench_arguments_are_taken_one_by_one() {
    let mut config = BenchConfig::new();
    assert_eq!((config.runs, config.warmup), (5, 1));
    for arg in ["--runs", "9", "--warmup", "0", "--no-startup", "--json", "/a", "/b"] {
        assert_eq!(config.take(arg), BenchStep::Continue);
    }
    assert_eq!((config.runs, config.warmup), (9, 0));
    assert!(config.skip_startup && config.json);
    assert_eq!(config.path.as_deref(), Some("/b"));
    assert!(config.finish().is_ok());
    assert_eq!(config.take("-h"), BenchStep::Help);
    assert_eq!(config.take("--x"), BenchStep::Refuse(BenchError::UnknownOption));
    assert_eq!(config.take("--runs"), BenchStep::Continue);
    assert_eq!(config.finish(), Err(BenchError::MissingNumber));
    assert_eq!(config.take("many"), BenchStep::Refuse(BenchError::BadRuns));
    assert_eq!(config.take("--warmup"), BenchStep::Continue);
    assert_eq!(config.take("-1"), BenchStep::Refuse(BenchError::BadWarmup));
    assert_eq!(BenchError::BadRuns.message(""), "--runs requires a number");
    assert_eq!(BenchError::BadWarmup.message(""), "--warmup requires a number");
    assert_eq!(BenchError::UnknownOption.message("--x"), "Unknown option: --x");
    assert_eq!(BenchError::MissingNumber.message(""), "a number is missing at the end");
}
