use disk_cleaner::path::NodePath;
use disk_cleaner::permissions::{has_full_disk_access, open_fda_settings, Probes};
use disk_cleaner::platform::{fallback, is_mounted, linux, macos, windows, VolumeInfo};
use disk_cleaner::scanner::disk_space;

fn path(text: &str) -> NodePath {
    NodePath::new(text)
}

const MOUNTS: &str = "\
proc /proc proc rw,nosuid,nodev,noexec,relatime 0 0
sysfs /sys sysfs rw,nosuid,nodev,noexec,relatime 0 0
/dev/sda1 / ext4 rw,relatime 0 0
tmpfs /tmp tmpfs rw,nosuid,nodev 0 0
/dev/sda2 /home ext4 rw,relatime 0 0
devpts /dev/pts devpts rw,nosuid,noexec,relatime 0 0";

#[test]
fn parse_mounts_filters_virtual_filesystems() {
    assert_eq!(linux::find_mounts(MOUNTS), vec!["/", "/home"]);
    let vols = linux::parse_mounts(MOUNTS, &vec![Some((100, 40)), Some((200, 50))]);
    for vol in &vols {
        assert_ne!(vol.path.to_text(), "/proc");
        assert_ne!(vol.path.to_text(), "/sys");
        assert_ne!(vol.path.to_text(), "/tmp");
        assert_ne!(vol.path.to_text(), "/dev/pts");
    }
    assert_eq!(vols.len(), 2);
    assert_eq!(vols[1].path.to_text(), "/home");
    assert_eq!((vols[1].total_bytes, vols[1].available_bytes), (200, 50));
}

#[test]
fn parse_mounts_handles_empty_input() {
    let vols = linux::parse_mounts("", &vec![]);
    assert!(vols.is_empty());
}

#[test]
fn parse_mounts_leaves_out_what_has_no_size() {
    let vols = linux::parse_mounts(MOUNTS, &vec![None, Some((0, 0))]);
    assert!(vols.iter().all(|v| v.path.to_text() != "/"));
    let octal = "/dev/sdb1 /mnt/my\\040disk ext4 rw 0 0\n";
    assert_eq!(linux::find_mounts(octal).len(), 1);
}

#[test]
fn skip_set_from_root_includes_virtual_dirs() {
    let skip = linux::build_skip_set(&path("/"));
    assert!(skip.contains(&path("/proc")));
    assert!(skip.contains(&path("/sys")));
    assert!(skip.contains(&path("/dev")));
    assert_eq!(skip.len(), 5);
}

#[test]
fn skip_set_from_non_root_is_empty() {
    let skip = linux::build_skip_set(&path("/home/user"));
    assert!(skip.is_empty());
}

#[test]
fn list_volumes_includes_root() {
    let entries = vec![
        macos::VolumeEntry {
            path: path("/Volumes/Macintosh HD"),
            is_root: true,
            is_dir: true,
            space: Some((500, 100)),
        },
        macos::VolumeEntry {
            path: path("/Volumes/Backup"),
            is_root: false,
            is_dir: true,
            space: Some((900, 300)),
        },
        macos::VolumeEntry {
            path: path("/Volumes/file"),
            is_root: false,
            is_dir: false,
            space: Some((1, 1)),
        },
        macos::VolumeEntry {
            path: path("/Volumes/Gone"),
            is_root: false,
            is_dir: true,
            space: None,
        },
    ];
    let vols = macos::list_volumes(Some((500, 100)), entries);
    assert!(
        vols.iter().any(|v| v.path.same(&path("/"))),
        "list_volumes should include root filesystem"
    );
    let names: Vec<&str> = vols.iter().map(|v| v.name.as_str()).collect();
    assert_eq!(names, vec!["Macintosh HD", "Backup"]);
}

#[test]
fn disk_space_returns_some_for_root() {
    let result = disk_space(Some((1000, 250, 4096)));
    assert!(result.is_some(), "disk_space should succeed for /");
    let (total, available) = result.unwrap();
    assert!(total > 0);
    assert!(available <= total);
    assert_eq!((total, available), (4_096_000, 1_024_000));
    assert_eq!(disk_space(None), None);
}

#[test]
fn build_skip_set_from_root_includes_data_volume() {
    let skip = macos::build_skip_set(&path("/"), &vec![]);
    assert!(
        skip.contains(&path("/System/Volumes/Data")),
        "skip set from root should include /System/Volumes/Data"
    );
}

#[test]
fn build_skip_set_under_data_volume_is_empty() {
    let skip = macos::build_skip_set(&path("/System/Volumes/Data/Users"), &vec![]);
    assert!(
        !skip.contains(&path("/System/Volumes/Data")),
        "skip set from under Data volume should not include Data"
    );
}

#[test]
fn skip_set_from_drive_root_includes_system_dirs() {
    let skip = windows::build_skip_set("C:\\");
    assert!(skip.contains(&String::from("C:\\$Recycle.Bin")));
    assert!(skip.contains(&String::from("C:\\System Volume Information")));
}

#[test]
fn skip_set_from_subdirectory_is_empty() {
    let skip = windows::build_skip_set("C:\\Users\\dom\\Documents");
    assert!(skip.is_empty());
}

#[test]
fn names_of_volumes_are_decoded_unit_by_unit() {
    let units = vec![0x61, 0xD83D, 0xDCBE, 0xDC00, 0xD800, 0x62, 0xD83D, 0xE9, 0xD800, 0];
    let drive = windows::DriveEntry { letter: 'C', space: Some((2, 1)), label: Some(units) };
    let volumes = windows::list_volumes(&vec![drive]);
    assert_eq!(volumes[0].name, "a\u{1F4BE}\u{FFFD}\u{FFFD}b\u{FFFD}é\u{FFFD} (C:)");
}

#[test]
fn list_volumes_returns_at_least_one_drive() {
    let label: Vec<u16> = "System\0junk".encode_utf16().collect();
    let entries = vec![
        windows::DriveEntry { letter: 'C', space: Some((100, 30)), label: Some(label) },
        windows::DriveEntry { letter: 'D', space: Some((200, 20)), label: None },
        windows::DriveEntry { letter: 'E', space: None, label: None },
    ];
    let vols = windows::list_volumes(&entries);
    assert!(!vols.is_empty(), "Windows should have at least one drive");
    assert!(
        vols.iter().any(|v| v.root == "C:\\"),
        "C:\\ drive should be present"
    );
    assert_eq!(vols[0].name, "System (C:)");
    assert_eq!(vols[1].name, "Local Disk (D:)");
}

#[test]
fn elsewhere_nothing_is_known() {
    assert!(fallback::disk_space(&path("/")).is_none());
    assert!(fallback::list_volumes().is_empty());
    assert!(fallback::build_skip_set(&path("/")).is_empty());
}

#[test]
fn mounted_paths_are_known_by_their_path() {
    let volumes = vec![VolumeInfo {
        name: String::from("root"),
        path: path("/"),
        total_bytes: 1,
        available_bytes: 1,
    }];
    assert!(is_mounted(&volumes, &path("/")));
    assert!(!is_mounted(&volumes, &path("/home")));
}

#[test]
fn has_full_disk_access_returns_bool() {
    let refused = Probes {
        database: false,
        user_files: vec![false, false, false],
        time_machine: false,
    };
    assert!(!has_full_disk_access(Some(&refused)));
    let one = Probes { database: false, user_files: vec![false, true], time_machine: false };
    assert!(has_full_disk_access(Some(&one)));
    let database = Probes { database: true, user_files: vec![], time_machine: false };
    assert!(has_full_disk_access(Some(&database)));
    let settings = Probes { database: false, user_files: vec![], time_machine: true };
    assert!(has_full_disk_access(Some(&settings)));
    assert!(has_full_disk_access(None));
}

#[test]
fn open_fda_settings_does_not_panic() {
    assert_eq!(open_fda_settings(false), None);
    assert_eq!(
        open_fda_settings(true),
        Some("x-apple.systempreferences:com.apple.preference.security?Privacy_AllFiles")
    );
}
