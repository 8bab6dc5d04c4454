use disk_cleaner::search::{glob_matches, parse_size, Query};

#[test]
fn names_wildcards_and_combined_sizes() {
    let query = Query::parse("*.zip backup >1g <=2GiB").unwrap();
    assert!(query.matches("Backup-2026.ZIP", 1_500_000_000));
    assert!(!query.matches("Backup.zip.old", 1_500_000_000));
    assert!(!query.matches("other.zip", 1_500_000_000));
    assert!(!query.matches("backup.zip", 1_000_000_000));
    assert!(!query.matches("backup.zip", 3_000_000_000));
    assert!(Query::parse("\"summer holiday\" >=1.5m")
        .unwrap()
        .matches("Summer Holiday.mp4", 1_500_000));
    assert!(Query::parse("\"=notes\"").unwrap().matches("=notes.txt", 0));
}

#[test]
fn wildcards_match_whole_names_and_unicode_characters() {
    for (pattern, name, expected) in [
        ("*", "", true),
        ("a?c", "aéc", true),
        ("a?c", "ac", false),
        ("*.zip", "file.zip.old", false),
        ("*ab*cd", "xxabyyabzzcd", true),
        ("a**b", "ab", true),
        ("*a?", "a", false),
        ("a*b*c", "abbb", false),
    ] {
        assert_eq!(
            Query::parse(pattern).unwrap().matches(name, 0),
            expected,
            "{pattern}: {name}"
        );
    }
}

#[test]
fn two_queries_in_one_match_where_both_do() {
    let parts = ["*.zip", "backup", ">1k", "\"summer holiday\"", "", "<=2m"];
    let files = [
        ("backup.zip", 5_000),
        ("backup.tar", 5_000),
        ("summer holiday.zip", 100),
        ("summer holiday backup.zip", 3_000_000),
    ];
    for a in parts {
        for b in parts {
            let both = Query::parse(&format!("{a} {b}")).unwrap();
            for (name, size) in files {
                let each = Query::parse(a).unwrap().matches(name, size)
                    && Query::parse(b).unwrap().matches(name, size);
                assert_eq!(both.matches(name, size), each, "{a} {b}: {name}");
            }
        }
    }
}

#[test]
fn exact_size_boundaries_and_units() {
    assert!(Query::parse("=18446744073709551615")
        .unwrap()
        .matches("f", u64::MAX));
    assert!(Query::parse(">=1KiB <2k").unwrap().matches("f", 1024));
    assert!(!Query::parse("<1k").unwrap().matches("f", 1000));
    assert_eq!(parse_size("1.25GB"), Some(1_250_000_000));
    assert_eq!(parse_size("0"), Some(0));
    assert!(Query::parse("  ").unwrap().matches("anything", 0));
}

#[test]
fn invalid_input_is_reported() {
    for input in [
        ">",
        "> 1g",
        ">=oops",
        "=1XB",
        "<1.2.3g",
        "=1.",
        "=0.5",
        "=-1",
        "=18446744073709551616",
        "\"unfinished",
        "\"name\"extra",
    ] {
        assert!(Query::parse(input).is_err(), "{input}");
    }
}

#[test]
fn every_unit_has_its_factor() {
    for (text, bytes) in [
        ("3", 3),
        ("3b", 3),
        ("3k", 3_000),
        ("3kB", 3_000),
        ("3KiB", 3_072),
        ("2m", 2_000_000),
        ("2MiB", 2_097_152),
        ("1.5g", 1_500_000_000),
        ("1GiB", 1_073_741_824),
        ("1t", 1_000_000_000_000),
        ("1TiB", 1_099_511_627_776),
        ("0.5k", 500),
    ] {
        assert_eq!(parse_size(text), Some(bytes), "{text}");
    }
    for text in ["", "k", "1x", "1 k", "0.0001k", "99999999999999999999"] {
        assert_eq!(parse_size(text), None, "{text}");
    }
}

#[test]
fn a_star_alone_fits_every_name() {
    for name in ["", "a", "file.txt", "é"] {
        assert!(glob_matches(&['*'], name));
        assert!(glob_matches(&name.chars().collect::<Vec<char>>(), name));
    }
    assert!(!glob_matches(&['?'], ""));
    assert!(glob_matches(&['A', '?'], "ab"));
}

#[test]
fn comparisons_stand_for_what_they_look_like() {
    for (query, below, at, above) in [
        ("<5", true, false, false),
        ("<=5", true, true, false),
        ("=5", false, true, false),
        (">=5", false, true, true),
        (">5", false, false, true),
    ] {
        let query = Query::parse(query).unwrap();
        assert_eq!(
            (query.matches("f", 4), query.matches("f", 5), query.matches("f", 6)),
            (below, at, above)
        );
    }
}
