//! Volumes and skipped directories on Linux.

use vstd::prelude::*;

use crate::path;
use crate::path::{NodePath, PathSet};
use crate::platform;
use crate::platform::VolumeInfo;
use crate::text;
use crate::text::{chars_of, is_listed_lowered, is_white, owned, string_from};

verus! {

/// The file systems that hold no files on a disk.
pub const VIRTUAL_FS_TYPES: [&'static str; 25] = [
    "proc",
    "sysfs",
    "tmpfs",
    "devpts",
    "devtmpfs",
    "cgroup",
    "cgroup2",
    "pstore",
    "securityfs",
    "debugfs",
    "configfs",
    "fusectl",
    "mqueue",
    "hugetlbfs",
    "autofs",
    "tracefs",
    "binfmt_misc",
    "rpc_pipefs",
    "nfsd",
    "efivarfs",
    "bpf",
    "overlay",
    "squashfs",
    "nsfs",
    "ramfs",
];

/// The directories that a scan of the whole system leaves out.
pub const SYSTEM_DIRS: [&'static str; 5] = ["/proc", "/sys", "/dev", "/run", "/snap"];

/// Where the line that stands at `from` ends.
pub open spec fn line_end(content: Seq<char>, from: int) -> int
    decreases content.len() - from,
{
    if from >= content.len() || content[from] == '\n' {
        from
    } else {
        line_end(content, from + 1)
    }
}

/// Where the first character at or after `from` stands that is no space.
pub open spec fn word_start(line: Seq<char>, from: int) -> int
    decreases line.len() - from,
{
    if from >= line.len() || !text::is_space(line[from]) {
        from
    } else {
        word_start(line, from + 1)
    }
}

/// Where the word that stands at `from` ends.
pub open spec fn word_end(line: Seq<char>, from: int) -> int
    decreases line.len() - from,
{
    if from >= line.len() || text::is_space(line[from]) {
        from
    } else {
        word_end(line, from + 1)
    }
}

proof fn lemma_word(line: Seq<char>, from: int)
    requires
        0 <= from <= line.len(),
    ensures
        from <= word_start(line, from) <= line.len(),
        from <= word_end(line, from) <= line.len(),
        from < line.len() && !text::is_space(line[from]) ==> from < word_end(line, from),
        word_start(line, from) < line.len() ==> !text::is_space(line[word_start(line, from)]),
    decreases line.len() - from,
{
    if from < line.len() {
        lemma_word(line, from + 1);
    }
}

proof fn lemma_line_end(content: Seq<char>, from: int)
    requires
        0 <= from <= content.len(),
    ensures
        from <= line_end(content, from) <= content.len(),
    decreases content.len() - from,
{
    if from < content.len() {
        lemma_line_end(content, from + 1);
    }
}

/// The words of a line from `from` on.
pub open spec fn words(line: Seq<char>, from: int) -> Seq<Seq<char>>
    decreases line.len() - from,
    when 0 <= from <= line.len()
    via words_decreases
{
    let start = word_start(line, from);
    let end = word_end(line, start);
    if start >= line.len() {
        Seq::empty()
    } else {
        seq![line.subrange(start, end)] + words(line, end)
    }
}

#[via_fn]
proof fn words_decreases(line: Seq<char>, from: int) {
    lemma_word(line, from);
    lemma_word(line, word_start(line, from));
}

/// The mount point that a line of the table names: the second of at least four
/// words, unless the third is a virtual file system.
pub open spec fn mount_point(line: Seq<char>) -> Option<Seq<char>> {
    let fields = words(line, 0);
    if fields.len() < 4 || text::listed_lowered(fields[2], VIRTUAL_FS_TYPES@) {
        None
    } else {
        Some(fields[1])
    }
}

/// The mount points that the lines from `from` on name.
pub open spec fn mount_points(content: Seq<char>, from: int) -> Seq<Seq<char>>
    decreases content.len() + 1 - from,
    when 0 <= from
    via mount_points_decreases
{
    let end = line_end(content, from);
    if from >= content.len() {
        Seq::empty()
    } else {
        let rest = mount_points(content, end + 1);
        match mount_point(content.subrange(from, end)) {
            Some(mount) => seq![mount] + rest,
            None => rest,
        }
    }
}

#[via_fn]
proof fn mount_points_decreases(content: Seq<char>, from: int) {
    if from <= content.len() {
        lemma_line_end(content, from);
    }
}

/// Texts as mathematical values.
pub open spec fn text_views(texts: Seq<String>) -> Seq<Seq<char>> {
    texts.map_values(|text: String| text@)
}

/// The words of a line.
fn split_words(line: &[char]) -> (fields: Vec<String>)
    ensures
        text_views(fields@) == words(line@, 0),
{
    let mut fields: Vec<String> = Vec::new();
    let mut at: usize = 0;
    assert(text_views(fields@) + words(line@, 0) =~= words(line@, 0));
    while at < line.len()
        invariant
            at <= line@.len(),
            text_views(fields@) + words(line@, at as int) == words(line@, 0),
        ensures
            text_views(fields@) == words(line@, 0),
        decreases line@.len() - at,
    {
        let ghost from = at as int;
        let ghost found = text_views(fields@);
        proof {
            lemma_word(line@, from);
            lemma_word(line@, word_start(line@, from));
        }
        while at < line.len() && is_white(line[at])
            invariant
                from <= at <= line@.len(),
                word_start(line@, at as int) == word_start(line@, from),
            decreases line@.len() - at,
        {
            at += 1;
        }
        let start: usize = at;
        if start == line.len() {
            assert(found + Seq::<Seq<char>>::empty() =~= found);
            break;
        }
        while at < line.len() && !is_white(line[at])
            invariant
                start <= at <= line@.len(),
                word_end(line@, at as int) == word_end(line@, start as int),
            decreases line@.len() - at,
        {
            at += 1;
        }
        fields.push(string_from(line, start, at));
        proof {
            let word = line@.subrange(start as int, at as int);
            assert(text_views(fields@) =~= found.push(word));
            assert(found + (seq![word] + words(line@, at as int)) =~= found.push(word) + words(
                line@,
                at as int,
            ));
            if at >= line.len() {
                assert(words(line@, at as int) =~= Seq::<Seq<char>>::empty());
                assert(text_views(fields@) + Seq::<Seq<char>>::empty() =~= text_views(fields@));
            }
        }
    }
    proof {
        if line@.len() == 0 {
            assert(text_views(fields@) =~= words(line@, 0));
        }
    }
    fields
}

/// The mount points that a table of mounts names, without those of virtual
/// file systems.
pub fn find_mounts(content: &str) -> (mounts: Vec<String>)
    ensures
        text_views(mounts@) == mount_points(content@, 0),
{
    let chars = chars_of(content);
    let mut mounts: Vec<String> = Vec::new();
    let mut at: usize = 0;
    assert(text_views(mounts@) + mount_points(chars@, 0) =~= mount_points(chars@, 0));
    while at < chars.len()
        invariant
            at <= chars@.len(),
            text_views(mounts@) + mount_points(chars@, at as int) == mount_points(chars@, 0),
        decreases chars@.len() - at,
    {
        let ghost from = at as int;
        let ghost found = text_views(mounts@);
        let start: usize = at;
        proof {
            lemma_line_end(chars@, from);
        }
        while at < chars.len() && chars[at] != '\n'
            invariant
                start <= at <= chars@.len(),
                line_end(chars@, at as int) == line_end(chars@, start as int),
            decreases chars@.len() - at,
        {
            at += 1;
        }
        let line = vstd::slice::slice_subrange(chars.as_slice(), start, at);
        let ghost rest = mount_points(chars@, at + 1);
        let mut fields = split_words(line);
        assert(text_views(fields@).len() == fields@.len());
        if fields.len() >= 4 && !is_listed_lowered(fields[2].as_str(), &VIRTUAL_FS_TYPES) {
            let mount = fields.swap_remove(1);
            mounts.push(mount);
            proof {
                assert(text_views(mounts@) =~= found.push(mount@));
                assert(found + (seq![mount@] + rest) =~= found.push(mount@) + rest);
            }
        }
        if at < chars.len() {
            at += 1;
        } else {
            assert(mount_points(chars@, at + 1) =~= mount_points(chars@, at as int));
        }
    }
    assert(mount_points(chars@, at as int) =~= Seq::<Seq<char>>::empty());
    assert(text_views(mounts@) + Seq::<Seq<char>>::empty() =~= text_views(mounts@));
    mounts
}

/// What the volume at a mount point is called.
pub open spec fn volume_name(mount: Seq<char>) -> Seq<char> {
    let parts = path::parse_parts(mount);
    if parts.len() > 0 && parts.last() != path::root_part() && parts.last() != seq!['.']
        && parts.last() != seq!['.', '.'] {
        parts.last()
    } else if mount == "/"@ {
        "Root"@
    } else {
        mount
    }
}

/// The first `n` of the volumes at `mounts`, given the bytes and the available
/// bytes of each. One without bytes, or of which they are not known, is left
/// out.
pub open spec fn sized_volumes(
    mounts: Seq<Seq<char>>,
    spaces: Seq<Option<(u64, u64)>>,
    n: nat,
) -> Seq<platform::Volume>
    decreases n,
{
    if n == 0 {
        Seq::empty()
    } else {
        let before = sized_volumes(mounts, spaces, (n - 1) as nat);
        match spaces[n - 1] {
            Some((total_bytes, available_bytes)) if total_bytes > 0 => before.push(
                platform::Volume {
                    name: volume_name(mounts[n - 1]),
                    path: path::place(mounts[n - 1]),
                    total_bytes,
                    available_bytes,
                },
            ),
            _ => before,
        }
    }
}

/// The volumes in a table of mounts, given the bytes and the available bytes
/// of each of its mount points.
pub fn parse_mounts(content: &str, spaces: &Vec<Option<(u64, u64)>>) -> (volumes: Vec<VolumeInfo>)
    requires
        spaces@.len() == mount_points(content@, 0).len(),
    ensures
        platform::volume_views(volumes@) == sized_volumes(
            mount_points(content@, 0),
            spaces@,
            spaces@.len(),
        ),
{
    let mounts = find_mounts(content);
    let ghost points = mount_points(content@, 0);
    let mut volumes: Vec<VolumeInfo> = Vec::new();
    let mut i: usize = 0;
    assert(platform::volume_views(volumes@) =~= Seq::<platform::Volume>::empty());
    assert(text_views(mounts@).len() == mounts@.len());
    while i < mounts.len()
        invariant
            i <= mounts@.len(),
            points == text_views(mounts@),
            spaces@.len() == mounts@.len(),
            platform::volume_views(volumes@) == sized_volumes(points, spaces@, i as nat),
        decreases mounts@.len() - i,
    {
        let ghost before = platform::volume_views(volumes@);
        let mount = mounts[i].as_str();
        assert(points[i as int] == mount@);
        if let Some((total_bytes, available_bytes)) = spaces[i] {
            if total_bytes > 0 {
                let path = NodePath::new(mount);
                let name = match path.file_name() {
                    Some(name) => owned(name),
                    None => if mount.eq("/") {
                        owned("Root")
                    } else {
                        owned(mount)
                    },
                };
                volumes.push(VolumeInfo { name, path, total_bytes, available_bytes });
                assert(platform::volume_views(volumes@) =~= before.push(volumes@.last()@));
            }
        }
        i += 1;
    }
    volumes
}

/// The directories that a scan of `root` leaves out: those of the system, where
/// the whole system is scanned.
pub fn build_skip_set(root: &NodePath) -> (skip: PathSet)
    ensures
        skip@ == (if root@ == path::parse_parts("/"@) {
            platform::spelled_paths(SYSTEM_DIRS@)
        } else {
            Set::empty()
        }),
{
    let mut skip = PathSet::new();
    if root.same(&NodePath::new("/")) {
        platform::skip_texts(&mut skip, &SYSTEM_DIRS);
        assert(skip@ =~= platform::spelled_paths(SYSTEM_DIRS@));
    }
    skip
}

/// A scan of the whole system leaves out the directories that hold no files on a disk; any
/// other scan leaves out nothing.
pub proof fn lemma_skip_set(root: NodePath, skip: PathSet, k: int)
    requires
        call_ensures(build_skip_set, (&root,), skip),
        0 <= k < 5,
    ensures
        ({
            let dirs = seq!["/proc"@, "/sys"@, "/dev"@, "/run"@, "/snap"@];
            &&& root@ == path::parse_parts("/"@) ==> skip@.contains(path::parse_parts(dirs[k]))
            &&& root@ == path::parse_parts("/"@) ==> !skip@.contains(root@)
            &&& root@ != path::parse_parts("/"@) ==> forall|p: Seq<Seq<char>>|
                !#[trigger] skip@.contains(p)
        }),
{
    let dirs = SYSTEM_DIRS@;
    assert(dirs.len() == 5);
    assert(platform::spelled_paths(dirs).contains(path::parse_parts(dirs[k]@)));
    assert(!platform::spelled_paths(dirs).contains(path::parse_parts("/"@))) by {
        reveal_strlit("/");
        assert("/"@ =~= seq!['/']);
        assert forall|i: int| 0 <= i < 5 implies path::parse_parts(#[trigger] dirs[i]@)
            != path::parse_parts("/"@) by {
            reveal_strlit("/proc");
            reveal_strlit("/sys");
            reveal_strlit("/dev");
            reveal_strlit("/run");
            reveal_strlit("/snap");
            let name = dirs[i]@.skip(1);
            assert(dirs[i]@ =~= seq!['/'] + name);
            assert(path::plain_name(name));
            path::lemma_absolute(name);
        }
    }
}

/// Whether a text is one word: not empty, and without space.
pub open spec fn one_word(word: Seq<char>) -> bool {
    word.len() > 0 && forall|i: int| 0 <= i < word.len() ==> !text::is_space(#[trigger] word[i])
}

proof fn lemma_start_here(line: Seq<char>, from: int, end: int)
    requires
        0 <= from <= end <= line.len(),
        forall|i: int| from <= i < end ==> !text::is_space(#[trigger] line[i]),
        end < line.len() ==> text::is_space(line[end]),
    ensures
        word_end(line, from) == end,
    decreases end - from,
{
    if from < end {
        lemma_start_here(line, from + 1, end);
    }
}

proof fn lemma_words_later(head: Seq<char>, tail: Seq<char>, from: int)
    requires
        0 <= from <= tail.len(),
    ensures
        words(head + tail, head.len() + from) == words(tail, from),
        word_start(head + tail, head.len() + from) == head.len() + word_start(tail, from),
        word_end(head + tail, head.len() + from) == head.len() + word_end(tail, from),
    decreases tail.len() - from,
{
    let line = head + tail;
    let at = head.len() + from;
    if from < tail.len() {
        assert(line[at] == tail[from]);
        lemma_words_later(head, tail, from + 1);
        lemma_word(tail, from);
        let start = word_start(tail, from);
        lemma_word(tail, start);
        if start < tail.len() {
            let end = word_end(tail, start);
            if start > from {
                lemma_words_later(head, tail, start);
            }
            lemma_words_later(head, tail, end);
            assert(line.subrange(head.len() + start, head.len() + end) =~= tail.subrange(
                start,
                end,
            ));
        }
    }
}

proof fn lemma_first_word(word: Seq<char>, tail: Seq<char>)
    requires
        one_word(word),
    ensures
        words(word.push(' ') + tail, 0) == seq![word] + words(tail, 0),
{
    let line = word.push(' ') + tail;
    let n = word.len() as int;
    assert forall|i: int| 0 <= i < n implies !text::is_space(#[trigger] line[i]) by {
        assert(line[i] == word[i]);
    }
    assert(line[n] == ' ');
    assert(!text::is_space(line[0]));
    lemma_start_here(line, 0, n);
    assert(line.subrange(0, n) =~= word);
    lemma_words_later(word.push(' '), tail, 0);
    lemma_space_skipped(line, n);
}

proof fn lemma_space_skipped(line: Seq<char>, from: int)
    requires
        0 <= from < line.len(),
        text::is_space(line[from]),
    ensures
        words(line, from) == words(line, from + 1),
{
    lemma_word(line, from);
    lemma_word(line, from + 1);
    assert(word_start(line, from) == word_start(line, from + 1));
}

/// A line of the table names its second word as a mount point, whatever its first word,
/// unless its third is a file system that holds no files on a disk.
pub proof fn lemma_line_read(
    device: Seq<char>,
    mount: Seq<char>,
    kind: Seq<char>,
    options: Seq<char>,
)
    requires
        one_word(device),
        one_word(mount),
        one_word(kind),
        options.len() > 0,
        !text::is_space(options[0]),
    ensures
        ({
            let line = device.push(' ') + (mount.push(' ') + (kind.push(' ') + options));
            mount_point(line) == if text::listed_lowered(kind, VIRTUAL_FS_TYPES@) {
                None
            } else {
                Some(mount)
            }
        }),
        text::all_alike(kind, "proc"@) || text::all_alike(kind, "tmpfs"@) || text::all_alike(
            kind,
            "overlay"@,
        ) || text::all_alike(kind, "squashfs"@) || text::all_alike(kind, "sysfs"@)
            ==> text::listed_lowered(kind, VIRTUAL_FS_TYPES@),
{
    let last = kind.push(' ') + options;
    let middle = mount.push(' ') + last;
    lemma_first_word(device, middle);
    lemma_first_word(mount, last);
    lemma_first_word(kind, options);
    lemma_word(options, 0);
    assert(words(options, 0).len() >= 1);
    let fields = words(device.push(' ') + middle, 0);
    assert(fields[1] == mount && fields[2] == kind && fields.len() >= 4);
    let types = VIRTUAL_FS_TYPES@;
    text::lemma_alike(kind, "proc"@);
    text::lemma_alike(kind, "tmpfs"@);
    text::lemma_alike(kind, "overlay"@);
    text::lemma_alike(kind, "squashfs"@);
    text::lemma_alike(kind, "sysfs"@);
    assert(types[0]@ == "proc"@ && types[1]@ == "sysfs"@ && types[2]@ == "tmpfs"@);
    assert(types[21]@ == "overlay"@ && types[22]@ == "squashfs"@);
}

proof fn lemma_line_end_at(content: Seq<char>, from: int, end: int)
    requires
        0 <= from <= end < content.len(),
        content[end] == '\n',
        forall|i: int| from <= i < end ==> #[trigger] content[i] != '\n',
    ensures
        line_end(content, from) == end,
    decreases end - from,
{
    if from < end {
        lemma_line_end_at(content, from + 1, end);
    }
}

proof fn lemma_points_later(head: Seq<char>, tail: Seq<char>, from: int)
    requires
        0 <= from <= tail.len() + 1,
    ensures
        mount_points(head + tail, head.len() + from) == mount_points(tail, from),
        from <= tail.len() ==> line_end(head + tail, head.len() + from) == head.len() + line_end(
            tail,
            from,
        ),
    decreases tail.len() + 1 - from,
{
    let content = head + tail;
    let at = head.len() + from;
    if from < tail.len() {
        assert(content[at] == tail[from]);
        lemma_points_later(head, tail, from + 1);
        lemma_line_end(tail, from);
        let end = line_end(tail, from);
        lemma_points_later(head, tail, end + 1);
        assert(content.subrange(at, head.len() + end) =~= tail.subrange(from, end));
    }
}

/// The table is read line by line: what a line names comes first, and after it what the
/// other lines name.
pub proof fn lemma_table_read(line: Seq<char>, others: Seq<char>)
    requires
        !line.contains('\n'),
    ensures
        mount_points(line.push('\n') + others, 0) == match mount_point(line) {
            Some(mount) => seq![mount] + mount_points(others, 0),
            None => mount_points(others, 0),
        },
{
    let content = line.push('\n') + others;
    let n = line.len() as int;
    assert forall|i: int| 0 <= i < n implies #[trigger] content[i] != '\n' by {
        assert(content[i] == line[i]);
        assert(line.contains(line[i]));
    }
    assert(content[n] == '\n');
    lemma_line_end_at(content, 0, n);
    assert(content.subrange(0, n) =~= line);
    lemma_points_later(line.push('\n'), others, 0);
}

/// Each mount point of known size, and not empty, is listed with its path and its bytes,
/// and nothing else is.
pub proof fn lemma_sized_volumes(
    mounts: Seq<Seq<char>>,
    spaces: Seq<Option<(u64, u64)>>,
    n: nat,
    path: Seq<char>,
    total: u64,
    free: u64,
)
    requires
        n <= mounts.len(),
        n <= spaces.len(),
    ensures
        (exists|i: int|
            0 <= i < sized_volumes(mounts, spaces, n).len() && (#[trigger] sized_volumes(
                mounts,
                spaces,
                n,
            )[i]).path.text == path && sized_volumes(mounts, spaces, n)[i].total_bytes == total
                && sized_volumes(mounts, spaces, n)[i].available_bytes == free) <==> total > 0
            && exists|k: int|
            0 <= k < n && #[trigger] mounts[k] == path && spaces[k] == Some((total, free)),
    decreases n,
{
    if n > 0 {
        let less = (n - 1) as nat;
        let before = sized_volumes(mounts, spaces, less);
        let listed = sized_volumes(mounts, spaces, n);
        lemma_sized_volumes(mounts, spaces, less, path, total, free);
        if exists|i: int|
            0 <= i < before.len() && (#[trigger] before[i]).path.text == path
                && before[i].total_bytes == total && before[i].available_bytes == free {
            let i = choose|i: int|
                0 <= i < before.len() && (#[trigger] before[i]).path.text == path
                    && before[i].total_bytes == total && before[i].available_bytes == free;
            assert(listed[i] == before[i]);
        }
        if mounts[n - 1] == path && spaces[n - 1] == Some((total, free)) && total > 0 {
            assert(listed[before.len() as int].path.text == path);
        }
        if exists|i: int|
            0 <= i < listed.len() && (#[trigger] listed[i]).path.text == path
                && listed[i].total_bytes == total && listed[i].available_bytes == free {
            let i = choose|i: int|
                0 <= i < listed.len() && (#[trigger] listed[i]).path.text == path
                    && listed[i].total_bytes == total && listed[i].available_bytes == free;
            if i < before.len() {
                assert(before[i] == listed[i]);
            } else {
                assert(mounts[n - 1] == path);
            }
        }
    }
}

/// A volume is called by the last name of where it is mounted; the one at the root of all
/// is called so.
pub proof fn lemma_volume_name(above: Seq<char>, name: Seq<char>)
    requires
        path::plain_name(name),
        name != seq!['.', '.'],
        above.len() > 0,
    ensures
        volume_name(above + seq!['/'] + name) == name,
        volume_name(seq!['/'] + name) == name,
        volume_name("/"@) == "Root"@,
{
    reveal_strlit("/");
    assert("/"@ =~= seq!['/']);
    path::lemma_spellings(above, name);
    path::lemma_absolute(name);
    if name == path::root_part() {
        assert(name[0] == '/');
        assert(name.contains('/'));
    }
}

/// File systems that are kept on disks are no virtual ones.
pub proof fn lemma_disk_file_systems()
    ensures
        !text::listed_lowered("ext4"@, VIRTUAL_FS_TYPES@),
        !text::listed_lowered("xfs"@, VIRTUAL_FS_TYPES@),
        !text::listed_lowered("btrfs"@, VIRTUAL_FS_TYPES@),
        !text::listed_lowered("vfat"@, VIRTUAL_FS_TYPES@),
{
    reveal_strlit("ext4");
    reveal_strlit("xfs");
    reveal_strlit("btrfs");
    reveal_strlit("vfat");
    reveal_strlit("proc");
    reveal_strlit("sysfs");
    reveal_strlit("tmpfs");
    reveal_strlit("nfsd");
    reveal_strlit("bpf");
    reveal_strlit("nsfs");
    reveal_strlit("ramfs");
    reveal_strlit("devpts");
    reveal_strlit("devtmpfs");
    reveal_strlit("cgroup");
    reveal_strlit("cgroup2");
    reveal_strlit("pstore");
    reveal_strlit("securityfs");
    reveal_strlit("debugfs");
    reveal_strlit("configfs");
    reveal_strlit("fusectl");
    reveal_strlit("mqueue");
    reveal_strlit("hugetlbfs");
    reveal_strlit("autofs");
    reveal_strlit("tracefs");
    reveal_strlit("binfmt_misc");
    reveal_strlit("rpc_pipefs");
    reveal_strlit("efivarfs");
    reveal_strlit("overlay");
    reveal_strlit("squashfs");
    let types = VIRTUAL_FS_TYPES@;
    assert forall|i: int| 0 <= i < types.len() implies {
        let listed = text::lowered(#[trigger] types[i]@);
        &&& listed != text::lowered("ext4"@)
        &&& listed != text::lowered("xfs"@)
        &&& listed != text::lowered("btrfs"@)
        &&& listed != text::lowered("vfat"@)
    } by {
        let listed = text::lowered(types[i]@);
        assert(listed.len() == types[i]@.len());
        assert(listed[0] == text::lower(types[i]@[0]));
        assert(text::lowered("ext4"@)[0] == text::lower('e'));
        assert(text::lowered("xfs"@)[0] == text::lower('x'));
        assert(text::lowered("btrfs"@)[0] == text::lower('b'));
        assert(text::lowered("vfat"@)[0] == text::lower('v'));
    }
}

} // verus!
