use disk_cleaner::ntfs::{
    align_up, collect_file_samples_for_path, enumerate_volume_for_path, file_record_request,
    name_buffer, ntfs_eligibility, open_request, parse_data_attribute_sizes, parse_v2_record,
    parse_v3_record, query_size_from_file_record_for_sample,
    query_sizes_from_file_records_for_samples, query_sizes_open_by_id_for_path,
    read_record_length, resolve_paths_open_by_id_for_samples, total_sizes, wide_name_from_record,
    ErrorKind, FileRecordSizeSample, NameBuffer, NtfsEligibility, NtfsError, NtfsRecordSample,
    ParseError,
};
use disk_cleaner::probe::{
    compare_metadata, compare_records, PathLength, Probe, ProbeArgs, ProbeError,
};
use disk_cleaner::wide::{
    drive_letters, drive_root, dunce_simplified, is_local_drive, name_volume, space_query_path,
    strip_verbatim_prefix, to_verbatim_wide, trim_wide_nul, volume_device_from_root, wide_null,
};

fn wide(text: &str) -> Vec<u16> {
    text.encode_utf16().collect()
}

fn put(buf: &mut [u8], at: usize, bytes: &[u8]) {
    buf[at..at + bytes.len()].copy_from_slice(bytes);
}

fn v2(id: u64, parent: u64, attributes: u32, name: &str) -> Vec<u8> {
    let units = wide(name);
    let mut record = vec![0u8; (64 + units.len() * 2 + 7) / 8 * 8];
    let length = record.len() as u32;
    put(&mut record, 0, &length.to_le_bytes());
    put(&mut record, 4, &2u16.to_le_bytes());
    put(&mut record, 8, &id.to_le_bytes());
    put(&mut record, 16, &parent.to_le_bytes());
    put(&mut record, 52, &attributes.to_le_bytes());
    put(&mut record, 56, &(units.len() as u16 * 2).to_le_bytes());
    put(&mut record, 58, &64u16.to_le_bytes());
    for (i, unit) in units.iter().enumerate() {
        put(&mut record, 64 + 2 * i, &unit.to_le_bytes());
    }
    record
}

fn v3(id: u128, attributes: u32, name: &str) -> Vec<u8> {
    let units = wide(name);
    let mut record = vec![0u8; (80 + units.len() * 2 + 7) / 8 * 8];
    let length = record.len() as u32;
    put(&mut record, 0, &length.to_le_bytes());
    put(&mut record, 4, &3u16.to_le_bytes());
    put(&mut record, 8, &id.to_le_bytes());
    put(&mut record, 24, &5u128.to_le_bytes());
    put(&mut record, 68, &attributes.to_le_bytes());
    put(&mut record, 72, &(units.len() as u16 * 2).to_le_bytes());
    put(&mut record, 74, &80u16.to_le_bytes());
    for (i, unit) in units.iter().enumerate() {
        put(&mut record, 80 + 2 * i, &unit.to_le_bytes());
    }
    record
}

fn page(next: u64, records: &[Vec<u8>]) -> Vec<u8> {
    let mut page = next.to_le_bytes().to_vec();
    for record in records {
        page.extend(record);
    }
    page
}

fn volume(filesystem: &str) -> NtfsEligibility {
    ntfs_eligibility("C:\\Users", "C:\\", filesystem, 3, Ok(())).unwrap_or_else(|_| panic!())
}

fn sample(version: u16, id: u128) -> NtfsRecordSample {
    NtfsRecordSample {
        file_id: id,
        parent_file_id: 5,
        attributes: 0,
        name: String::from("f"),
        major_version: version,
    }
}

#[test]
fn volume_device_from_drive_root() {
    assert_eq!(volume_device_from_root(r"C:\"), Some(String::from(r"\\.\C:")));
}

#[test]
fn volume_device_rejects_unc_root() {
    assert_eq!(volume_device_from_root("\\\\server\\share\\"), None);
}

#[test]
fn drives_have_capital_letters() {
    assert_eq!(volume_device_from_root("d:"), Some(String::from(r"\\.\D:")));
    assert_eq!(volume_device_from_root("C"), None);
    assert_eq!(drive_letters(0b1_0000_0101), vec!['A', 'C', 'I']);
    assert_eq!(drive_letters(0xFC00_0000), Vec::<char>::new());
    assert_eq!(drive_root('C'), "C:\\");
    assert!(is_local_drive(3) && is_local_drive(2));
    assert!(!is_local_drive(4) && !is_local_drive(5));
    assert_eq!(name_volume('E', Some(&[0, 65])), "E:");
}

#[test]
fn verbatim_paths_begin_with_a_question_mark() {
    let with_nul = |text: &str| wide_null(&wide(text));
    assert_eq!(to_verbatim_wide(&wide(r"C:\a")), with_nul(r"\\?\C:\a"));
    assert_eq!(to_verbatim_wide(&wide(r"\\srv\share")), with_nul(r"\\?\UNC\srv\share"));
    assert_eq!(to_verbatim_wide(&wide(r"\\?\C:\a")), with_nul(r"\\?\C:\a"));
    assert_eq!(to_verbatim_wide(&wide("relative")), with_nul("relative"));
    assert_eq!(strip_verbatim_prefix(r"\\?\C:\a"), r"C:\a");
    assert_eq!(strip_verbatim_prefix(r"\\?\UNC\srv\x"), r"\\srv\x");
    assert_eq!(strip_verbatim_prefix(r"C:\a"), r"C:\a");
    assert_eq!(dunce_simplified(r"\\?\C:\a"), r"C:\a");
    assert_eq!(dunce_simplified(r"\\?\UNC\srv\x"), r"UNC\srv\x");
    assert_eq!(dunce_simplified("/unix"), "/unix");
}

#[test]
fn wide_buffers_end_at_their_nul() {
    assert_eq!(trim_wide_nul(&wide("NTFS\0rest")), "NTFS");
    assert_eq!(trim_wide_nul(&wide("Zürich 😀")), "Zürich 😀");
    assert_eq!(trim_wide_nul(&[0xD800]), "\u{FFFD}");
    assert_eq!(space_query_path(&wide("C:")), Some(wide("C:\\\0")));
    assert_eq!(space_query_path(&wide("C:/")), Some(wide("C:/\0")));
    assert_eq!(space_query_path(&wide("")), None);
    assert_eq!(space_query_path(&wide("a\0b")), None);
}

#[test]
fn records_of_both_versions_are_read() {
    let two = parse_v2_record(&v2(77, 5, 0x12, "Ordner")).unwrap_or_else(|_| panic!());
    assert_eq!((two.file_id, two.parent_file_id, two.attributes), (77, 5, 0x12));
    assert_eq!((two.name.as_str(), two.major_version), ("Ordner", 2));
    let three = parse_v3_record(&v3(1 << 100, 0, "x")).unwrap_or_else(|_| panic!());
    assert_eq!((three.file_id, three.parent_file_id, three.major_version), (1 << 100, 5, 3));
    assert!(matches!(parse_v2_record(&[0; 10]), Err(ParseError::ShortV2)));
    assert!(matches!(parse_v3_record(&[0; 70]), Err(ParseError::ShortV3)));
    let mut odd = v2(1, 1, 0, "ab");
    odd[56] = 3;
    assert!(matches!(parse_v2_record(&odd), Err(ParseError::NameRange)));
    assert!(matches!(wide_name_from_record(&[0; 4], 2, 4), Err(ParseError::NameRange)));
    assert_eq!(read_record_length(&[1, 2, 0, 0, 9]), Ok(513));
    assert_eq!(read_record_length(&[1, 2]), Err(ParseError::ShortRecordHeader));
}

#[test]
fn volumes_are_enumerated_page_by_page() {
    let mut run = enumerate_volume_for_path("C:\\Users", &volume("ntfs"), Some(3))
        .unwrap_or_else(|_| panic!());
    assert_eq!(run.next_request(), Some(0));
    let first = page(40, &[v2(1, 5, 0x10, "dir"), v3(2, 0x402, "hidden link")]);
    assert!(run.take_page(&first).is_ok());
    assert_eq!(run.next_request(), Some(40));
    let second = page(90, &[v2(3, 5, 0, "file"), v2(4, 5, 0, "too many")]);
    assert!(run.take_page(&second).is_ok());
    assert_eq!(run.next_request(), None);
    let summary = run.into_summary();
    assert_eq!(summary.total_records, 3);
    assert_eq!((summary.files, summary.directories), (2, 1));
    assert_eq!((summary.hidden, summary.reparse_points), (1, 1));
    assert_eq!((summary.v2_records, summary.v3_records), (2, 1));
    assert_eq!(summary.max_name_len, 11);
    assert_eq!(summary.next_file_reference_number, 90);
    assert!(summary.truncated);
    assert_eq!(summary.samples.len(), 3);
    assert_eq!(summary.volume_device, r"\\.\C:");
}

#[test]
fn enumeration_ends_with_the_last_page_or_fails() {
    let begin = || {
        enumerate_volume_for_path("C:\\", &volume("NTFS"), None).unwrap_or_else(|_| panic!())
    };
    let mut ended = begin();
    assert!(ended.take_failure(Some(38)).is_ok());
    assert_eq!(ended.next_request(), None);
    let mut short = begin();
    assert!(short.take_page(&[1, 2, 3]).is_ok());
    assert_eq!(short.next_request(), None);
    let mut denied = begin();
    let error = denied.take_failure(Some(5)).unwrap_err();
    assert_eq!(error.message(), "access denied enumerating USN data for \\\\.\\C:");
    assert_eq!(error.kind(), ErrorKind::PermissionDenied);
    let mut other = begin();
    let error = other.take_failure(Some(87)).unwrap_err();
    assert!(matches!(error, NtfsError::System { code: Some(87) }));
    assert_eq!(error.kind(), ErrorKind::Other);
    let mut bad = begin();
    let mut broken = v2(1, 5, 0, "a");
    broken.truncate(40);
    put(&mut broken, 0, &40u32.to_le_bytes());
    assert_eq!(bad.take_page(&page(0, &[broken])), Err(ParseError::ShortV2));
    let refused = enumerate_volume_for_path("D:\\x", &volume("FAT32"), None).err().unwrap();
    assert_eq!(refused.message(), "D:\\x is on FAT32, not NTFS");
    assert_eq!(refused.kind(), ErrorKind::Unsupported);
}

#[test]
fn only_files_are_collected() {
    let mut run = collect_file_samples_for_path("C:\\", &volume("NTFS"), 2)
        .unwrap_or_else(|_| panic!());
    let first = page(7, &[v2(1, 5, 0x10, "dir"), v2(2, 5, 0, "a"), v2(3, 5, 0, "b"), v2(4, 5, 0, "c")]);
    assert!(run.take_page(&first).is_ok());
    assert_eq!(run.next_request(), None);
    let names: Vec<String> = run.into_samples().into_iter().map(|s| s.name).collect();
    assert_eq!(names, vec!["a", "b"]);
}

#[test]
fn eligibility_tells_what_is_missing() {
    let open = volume("NTFS");
    assert!(open.is_ntfs() && open.is_local_fixed_drive() && open.is_eligible());
    assert!(!open.needs_elevation());
    let locked = ntfs_eligibility("C:\\x", "C:\\", "NTFS", 3, Err(Some(5)))
        .unwrap_or_else(|_| panic!());
    assert!(!locked.is_eligible() && locked.needs_elevation());
    let remote = ntfs_eligibility("Z:\\x", "Z:\\", "NTFS", 4, Ok(()))
        .unwrap_or_else(|_| panic!());
    assert!(!remote.is_local_fixed_drive() && !remote.is_eligible());
    let share = ntfs_eligibility("p", "\\\\srv\\share\\", "NTFS", 4, Ok(())).err().unwrap();
    assert_eq!(share.message(), "unsupported volume root: \\\\srv\\share\\");
}

#[test]
fn requests_need_short_ids() {
    assert_eq!(open_request(&sample(2, 99)).ok(), Some(99));
    assert_eq!(
        open_request(&sample(3, 99)).err().unwrap().message(),
        "OpenFileById probe currently supports only V2 IDs, got v3"
    );
    assert_eq!(
        open_request(&sample(2, 1 << 63)).err().unwrap().message(),
        "file id does not fit in i64: 0x8000000000000000"
    );
    assert_eq!(file_record_request(&sample(2, (7 << 48) + 12)).ok(), Some(12));
    assert_eq!(
        file_record_request(&sample(4, 1)).err().unwrap().message(),
        "FSCTL_GET_NTFS_FILE_RECORD probe currently supports only V2 IDs, got v4"
    );
}

fn file_record(attributes: &[Vec<u8>]) -> Vec<u8> {
    let mut record = vec![0u8; 0x38];
    put(&mut record, 0, b"FILE");
    put(&mut record, 0x14, &0x38u16.to_le_bytes());
    for attribute in attributes {
        record.extend(attribute);
    }
    record.extend(0xFFFF_FFFFu32.to_le_bytes());
    record.extend([0u8; 4]);
    record
}

fn attribute(kind: u32, resident: bool, named: bool, logical: u64, allocated: u64) -> Vec<u8> {
    let mut a = vec![0u8; if resident { 0x18 } else { 0x48 }];
    let length = a.len() as u32;
    put(&mut a, 0, &kind.to_le_bytes());
    put(&mut a, 4, &length.to_le_bytes());
    a[8] = if resident { 0 } else { 1 };
    a[9] = if named { 3 } else { 0 };
    if resident {
        put(&mut a, 0x10, &(logical as u32).to_le_bytes());
    } else {
        put(&mut a, 0x28, &allocated.to_le_bytes());
        put(&mut a, 0x30, &logical.to_le_bytes());
    }
    a
}

#[test]
fn sizes_come_from_the_default_data_attribute() {
    let small = file_record(&[attribute(0x30, true, false, 1, 0), attribute(0x80, true, false, 13, 0)]);
    assert_eq!(
        parse_data_attribute_sizes(&small),
        Ok(FileRecordSizeSample { logical_size: 13, allocated_size: 16, resident_data: true })
    );
    let large = file_record(&[
        attribute(0x80, true, true, 5, 0),
        attribute(0x80, false, false, 5000, 8192),
    ]);
    assert_eq!(
        parse_data_attribute_sizes(&large),
        Ok(FileRecordSizeSample { logical_size: 5000, allocated_size: 8192, resident_data: false })
    );
    assert_eq!(parse_data_attribute_sizes(&file_record(&[])), Err(ParseError::NoDataAttribute));
    assert_eq!(parse_data_attribute_sizes(&[0; 10]), Err(ParseError::ShortFileRecordHeader));
    assert_eq!(parse_data_attribute_sizes(&[0; 0x40]), Err(ParseError::Signature));
    let mut cut = file_record(&[attribute(0x80, true, false, 1, 0)]);
    cut[0x3c] = 4;
    assert_eq!(parse_data_attribute_sizes(&cut), Err(ParseError::AttributeLength));
    let mut brief = file_record(&[attribute(0x80, true, false, 1, 0)]);
    brief[0x38 + 8] = 1;
    assert_eq!(parse_data_attribute_sizes(&brief), Err(ParseError::ShortDataAttribute));
    assert_eq!((align_up(0, 8), align_up(1, 8), align_up(16, 8), align_up(5, 0)), (0, 8, 16, 5));
}

fn answer(record: &[u8]) -> Vec<u8> {
    let mut out = vec![0u8; 12];
    put(&mut out, 8, &(record.len() as u32).to_le_bytes());
    out.extend(record);
    out
}

#[test]
fn answers_hold_a_record_of_the_right_length() {
    let good = answer(&file_record(&[attribute(0x80, true, false, 9, 0)]));
    let sizes = query_size_from_file_record_for_sample(&sample(2, 1), Ok(&good));
    assert_eq!(sizes.ok().unwrap().logical_size, 9);
    let short = query_size_from_file_record_for_sample(&sample(2, 1), Ok(&good[..5]));
    assert_eq!(short.err().unwrap().message(), "short NTFS file record response");
    let cut = query_size_from_file_record_for_sample(&sample(2, 1), Ok(&good[..50]));
    assert_eq!(
        cut.err().unwrap().message(),
        format!(
            "invalid NTFS file record length: record_length={} bytes_returned=50 header_size=12",
            good.len() - 12
        )
    );
    let refused = query_size_from_file_record_for_sample(&sample(2, 1), Err(Some(2)));
    assert!(matches!(refused, Err(NtfsError::System { code: Some(2) })));
    let known = query_sizes_from_file_records_for_samples(
        "C:\\",
        &volume("NTFS"),
        &vec![sample(2, 1), sample(3, 2), sample(2, 3)],
        &vec![Some(good.clone()), Some(good), None],
    )
    .unwrap_or_else(|_| panic!());
    assert!(known[0].is_some() && known[1].is_none() && known[2].is_none());
}

#[test]
fn opened_files_are_listed_and_compared() {
    let samples = vec![sample(2, 0xAB), sample(2, 2), sample(2, 3)];
    let files = query_sizes_open_by_id_for_path(
        "C:\\",
        &volume("NTFS"),
        &samples,
        &vec![Some((10, 16, 1)), None, Some((7, 8, 2))],
    )
    .unwrap_or_else(|_| panic!());
    assert_eq!(files.len(), 2);
    assert_eq!((files[1].sample.file_id, files[1].links), (3, 2));
    assert_eq!(total_sizes(&files), Some((17, 24)));
    assert_eq!(total_sizes(&vec![]), Some((0, 0)));
    let huge = query_sizes_open_by_id_for_path(
        "C:\\",
        &volume("NTFS"),
        &samples,
        &vec![Some((1, u64::MAX, 1)), None, Some((7, 1, 2))],
    )
    .unwrap_or_else(|_| panic!());
    assert_eq!(total_sizes(&huge), None);
    let same = FileRecordSizeSample { logical_size: 7, allocated_size: 8, resident_data: true };
    let other = FileRecordSizeSample { logical_size: 11, allocated_size: 16, resident_data: false };
    let comparison = compare_records(&files, &[Some(other), Some(same)]);
    assert_eq!((comparison.compared, comparison.resident), (2, 1));
    assert_eq!(
        comparison.mismatches,
        vec!["frn=0xab open_by_id=(10,16) file_record=(11,16) f"]
    );
    let lengths = compare_metadata(
        &files,
        &[
            Some(PathLength { path: String::from("C:\\a"), length: Some(12) }),
            Some(PathLength { path: String::from("C:\\b"), length: None }),
        ],
    );
    assert_eq!((lengths.compared, lengths.errors), (1, 1));
    assert_eq!(lengths.mismatches, vec!["C:\\a logical=10 metadata=12"]);
    let none = compare_metadata(
        &files,
        &[None, Some(PathLength { path: String::from("C:\\b"), length: Some(7) })],
    );
    assert_eq!((none.compared, none.errors, none.mismatches.len()), (1, 0, 0));
    let paths = resolve_paths_open_by_id_for_samples(
        "C:\\",
        &volume("NTFS"),
        &samples,
        &vec![Some(wide(r"\\?\C:\a\ü")), None, Some(wide(r"C:\b"))],
    )
    .unwrap_or_else(|_| panic!());
    assert_eq!(paths, vec![Some(String::from(r"C:\a\ü")), None, Some(String::from(r"C:\b"))]);
    let refused = resolve_paths_open_by_id_for_samples("x", &volume("exFAT"), &vec![], &vec![]);
    assert!(refused.is_err());
}

#[test]
fn a_file_that_cannot_be_opened_by_its_id_has_neither_size_nor_path() {
    let samples = vec![sample(3, 1), sample(2, 1 << 63), sample(2, (1 << 63) - 1)];
    let files = query_sizes_open_by_id_for_path(
        "C:\\",
        &volume("NTFS"),
        &samples,
        &vec![Some((1, 1, 1)), Some((2, 2, 1)), Some((3, 3, 1))],
    )
    .unwrap_or_else(|_| panic!());
    assert_eq!(files.len(), 1);
    assert_eq!(files[0].logical_size, 3);
    let name = || Some(wide(r"C:\a"));
    let paths = resolve_paths_open_by_id_for_samples(
        "C:\\",
        &volume("NTFS"),
        &samples,
        &vec![name(), name(), name()],
    )
    .unwrap_or_else(|_| panic!());
    assert_eq!(paths, vec![None, None, Some(String::from(r"C:\a"))]);
}

#[test]
fn name_buffers_grow_until_the_name_fits() {
    assert_eq!(name_buffer(0, 10), NameBuffer::Refused);
    assert_eq!(name_buffer(9, 10), NameBuffer::Filled(9));
    assert_eq!(name_buffer(10, 10), NameBuffer::Grow(11));
}

#[test]
fn probe_arguments_are_taken_one_by_one() {
    let mut args = ProbeArgs::new(Probe::Records);
    assert_eq!(args.number, Some(50_000));
    assert!(args.take("--limit").is_ok() && args.take("12").is_ok() && args.take("C:\\").is_ok());
    assert_eq!((args.number, args.path.as_deref()), (Some(12), Some("C:\\")));
    assert!(args.take("--full").is_ok());
    assert_eq!(args.number, None);
    assert_eq!(args.take("D:\\"), Err(ProbeError::UnexpectedArgument));
    assert!(args.finish().is_ok());
    let mut sizes = ProbeArgs::new(Probe::Sizes);
    assert_eq!(sizes.number, Some(256));
    assert!(sizes.take("--count").is_ok());
    assert_eq!(sizes.finish(), Err(ProbeError::MissingValue));
    assert_eq!(sizes.take("x"), Err(ProbeError::InvalidValue));
    assert_eq!(
        ProbeError::InvalidValue.message(Probe::Sizes, "x"),
        "invalid --count value: x"
    );
    assert_eq!(
        ProbeError::MissingValue.message(Probe::Records, ""),
        "missing value after --limit"
    );
    assert_eq!(
        ProbeError::UnexpectedArgument.message(Probe::Records, "D:\\"),
        "unexpected argument: D:\\"
    );
}
