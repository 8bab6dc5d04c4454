//! Volumes and skipped directories on macOS.

use vstd::prelude::*;

use crate::agreement::below;
use crate::path;
use crate::path::{NodePath, PathSet};
use crate::platform;
use crate::platform::VolumeInfo;
use crate::scanner;
use crate::scanner::{dir_name, EntryKind, Visit};
use crate::text::owned;

verus! {

/// The volume with the user's files. All of it can be reached from the root
/// too.
pub const DATA_VOLUME: &'static str = "/System/Volumes/Data";

/// Further volumes of the system.
pub const SYSTEM_VOLUMES: [&'static str; 11] = [
    "/System/Volumes/Preboot",
    "/System/Volumes/Recovery",
    "/System/Volumes/VM",
    "/System/Volumes/Update",
    "/System/Volumes/BaseSystem",
    "/System/Volumes/FieldService",
    "/System/Volumes/FieldServiceDiagnostic",
    "/System/Volumes/FieldServiceRepair",
    "/System/Volumes/iSCPreboot",
    "/System/Volumes/xarts",
    "/System/Volumes/Hardware",
];

/// Where volumes are mounted.
pub const VOLUMES: &'static str = "/Volumes";

/// Whether `path` is `base` or lies in it.
pub open spec fn within(path: Seq<Seq<char>>, base: Seq<Seq<char>>) -> bool {
    base.len() <= path.len() && path.take(base.len() as int) == base
}

/// The volumes of the system that `root` does not lie in.
pub open spec fn other_system_volumes(root: Seq<Seq<char>>) -> Set<Seq<Seq<char>>> {
    Set::new(
        |p: Seq<Seq<char>>|
            !within(root, p) && exists|i: int|
                0 <= i < SYSTEM_VOLUMES@.len() && p == path::parse_parts(
                    #[trigger] SYSTEM_VOLUMES@[i]@,
                ),
    )
}

/// The directories that a scan of `root` leaves out, where `mounted` are the
/// entries of the directory of volumes: outside the data volume, that volume
/// and the other volumes of the system; outside the directory of volumes, all
/// that is mounted there.
pub open spec fn skipped(root: Seq<Seq<char>>, mounted: Seq<Seq<Seq<char>>>) -> Set<Seq<Seq<char>>> {
    let data = path::parse_parts(DATA_VOLUME@);
    let system = if within(root, data) {
        Set::empty()
    } else {
        other_system_volumes(root).insert(data)
    };
    let others = if within(root, path::parse_parts(VOLUMES@)) {
        Set::empty()
    } else {
        mounted.to_set().remove(root)
    };
    system.union(others)
}

fn skip_system_volumes(skip: &mut PathSet, root: &NodePath)
    ensures
        final(skip)@ == old(skip)@.union(other_system_volumes(root@)),
{
    let ghost before = skip@;
    let mut i: usize = 0;
    let ghost found = |n: int|
        Set::new(
            |p: Seq<Seq<char>>|
                !within(root@, p) && exists|k: int|
                    0 <= k < n && p == path::parse_parts(#[trigger] SYSTEM_VOLUMES@[k]@),
        );
    assert(before =~= before.union(found(0)));
    while i < 11
        invariant
            i <= 11,
            SYSTEM_VOLUMES@.len() == 11,
            found == |n: int|
                Set::new(
                    |p: Seq<Seq<char>>|
                        !within(root@, p) && exists|k: int|
                            0 <= k < n && p == path::parse_parts(#[trigger] SYSTEM_VOLUMES@[k]@),
                ),
            skip@ == before.union(found(i as int)),
        decreases 11 - i,
    {
        let volume = NodePath::new(SYSTEM_VOLUMES[i]);
        if !volume.contains(root) {
            skip.insert(&volume);
        }
        i += 1;
        proof {
            assert forall|p: Seq<Seq<char>>| #[trigger]
                found(i as int).contains(p) == (found(i - 1).contains(p) || (p == volume@
                    && !within(root@, volume@))) by {
                if found(i - 1).contains(p) {
                    let k = choose|k: int|
                        0 <= k < i - 1 && p == path::parse_parts(#[trigger] SYSTEM_VOLUMES@[k]@);
                    assert(p == path::parse_parts(SYSTEM_VOLUMES@[k]@));
                }
                if p == volume@ {
                    assert(p == path::parse_parts(SYSTEM_VOLUMES@[i - 1]@));
                }
            }
            assert(skip@ =~= before.union(found(i as int)));
        }
    }
    assert(found(11) =~= other_system_volumes(root@));
}

/// The directories that a scan of `root` leaves out, so that nothing counts
/// twice, where `mounted` are the entries of the directory of volumes.
pub fn build_skip_set(root: &NodePath, mounted: &Vec<NodePath>) -> (skip: PathSet)
    ensures
        skip@ == skipped(root@, path::path_views(mounted@)),
{
    let mut skip = PathSet::new();
    let data = NodePath::new(DATA_VOLUME);
    if !data.contains(root) {
        skip.insert(&data);
        skip_system_volumes(&mut skip, root);
    }
    let ghost system = skip@;
    proof {
        if !within(root@, data@) {
            assert(system =~= other_system_volumes(root@).insert(data@));
        } else {
            assert(system =~= Set::<Seq<Seq<char>>>::empty());
        }
    }
    let ghost all = path::path_views(mounted@);
    if !NodePath::new(VOLUMES).contains(root) {
        let mut i: usize = 0;
        assert(all.take(0).to_set() =~= Set::<Seq<Seq<char>>>::empty());
        assert(skip@ =~= system.union(all.take(0).to_set().remove(root@)));
        while i < mounted.len()
            invariant
                i <= mounted@.len(),
                all == path::path_views(mounted@),
                skip@ == system.union(all.take(i as int).to_set().remove(root@)),
            decreases mounted@.len() - i,
        {
            assert(all[i as int] == mounted@[i as int]@);
            if !mounted[i].same(root) {
                skip.insert(&mounted[i]);
            }
            i += 1;
            proof {
                let less = all.take(i - 1);
                let upto = all.take(i as int);
                assert(upto =~= less.push(all[i - 1]));
                assert forall|p: Seq<Seq<char>>| upto.contains(p) == (less.contains(p) || p
                    == all[i - 1]) by {
                    if less.contains(p) {
                        let k = choose|k: int| 0 <= k < less.len() && less[k] == p;
                        assert(upto[k] == p);
                    }
                    if p == all[i - 1] {
                        assert(upto[i - 1] == p);
                    }
                    if upto.contains(p) && p != all[i - 1] {
                        let k = choose|k: int| 0 <= k < upto.len() && upto[k] == p;
                        assert(less[k] == p);
                    }
                }
                assert(skip@ =~= system.union(upto.to_set().remove(root@)));
            }
        }
        assert(all.take(i as int) =~= all);
    } else {
        assert(skip@ =~= system.union(Set::empty()));
    }
    skip
}

/// One entry of the directory of volumes, with the bytes of its file system
/// and the available ones, where they are known.
pub struct VolumeEntry {
    pub path: NodePath,
    pub is_root: bool,
    pub is_dir: bool,
    pub space: Option<(u64, u64)>,
}

/// What is known of the volume at an entry: None where it is the root under
/// another name, no directory, or of unknown size.
pub open spec fn entry_volume(entry: VolumeEntry) -> Option<platform::Volume> {
    match entry.space {
        Some((total_bytes, available_bytes)) if !entry.is_root && entry.is_dir => Some(
            platform::Volume {
                name: scanner::dir_label(entry.path.place()),
                path: entry.path.place(),
                total_bytes,
                available_bytes,
            },
        ),
        _ => None,
    }
}

/// The volumes of the first `n` entries.
pub open spec fn entry_volumes(entries: Seq<VolumeEntry>, n: nat) -> Seq<platform::Volume>
    decreases n,
{
    if n == 0 {
        Seq::empty()
    } else {
        let before = entry_volumes(entries, (n - 1) as nat);
        match entry_volume(entries[n - 1]) {
            Some(volume) => before.push(volume),
            None => before,
        }
    }
}

/// The volume of the root.
pub open spec fn root_volume(space: Option<(u64, u64)>) -> Seq<platform::Volume> {
    match space {
        Some((total_bytes, available_bytes)) => seq![
            platform::Volume {
                name: "Macintosh HD"@,
                path: path::place("/"@),
                total_bytes,
                available_bytes,
            },
        ],
        None => Seq::empty(),
    }
}

/// The mounted volumes, from the space of the root and the entries of the
/// directory of volumes.
pub fn list_volumes(root_space: Option<(u64, u64)>, entries: Vec<VolumeEntry>) -> (volumes: Vec<
    VolumeInfo,
>)
    ensures
        platform::volume_views(volumes@) == root_volume(root_space) + entry_volumes(
            entries@,
            entries@.len(),
        ),
{
    let mut volumes: Vec<VolumeInfo> = Vec::new();
    let ghost first = root_volume(root_space);
    if let Some((total_bytes, available_bytes)) = root_space {
        volumes.push(
            VolumeInfo {
                name: owned("Macintosh HD"),
                path: NodePath::new("/"),
                total_bytes,
                available_bytes,
            },
        );
    }
    assert(platform::volume_views(volumes@) =~= first);
    assert(first + entry_volumes(entries@, 0) =~= first);
    for entry in it: entries
        invariant
            it.seq() == entries@,
            platform::volume_views(volumes@) == first + entry_volumes(
                entries@,
                it.index() as nat,
            ),
    {
        let ghost before = platform::volume_views(volumes@);
        let ghost n = it.index() as nat;
        assert(entry == entries@[n as int]);
        assert(entry_volumes(entries@, n + 1) == match entry_volume(entry) {
            Some(volume) => entry_volumes(entries@, n).push(volume),
            None => entry_volumes(entries@, n),
        });
        if let Some((total_bytes, available_bytes)) = entry.space {
            if !entry.is_root && entry.is_dir {
                let name = dir_name(&entry.path);
                volumes.push(VolumeInfo { name, path: entry.path, total_bytes, available_bytes });
                proof {
                    assert(platform::volume_views(volumes@) =~= before.push(volumes@.last()@));
                    assert(platform::volume_views(volumes@) =~= first + entry_volumes(
                        entries@,
                        n + 1,
                    ));
                }
            }
        }
    }
    volumes
}

proof fn lemma_below_again(a: Seq<Seq<char>>, b: Seq<Seq<char>>, c: Seq<Seq<char>>)
    requires
        below(a, b),
        below(b, c),
    ensures
        below(a, c),
{
    assert(a.take(c.len() as int) =~= b.take(c.len() as int));
}

/// A scan from outside the directory of volumes enters nothing that is mounted there, but
/// for the root that it was asked for: a scan of the whole disk leaves out every mounted
/// volume. What a scan from within that directory leaves out does not depend on what is
/// mounted.
pub proof fn lemma_mounted_volumes(
    root: Seq<Seq<char>>,
    mounted: Seq<Seq<Seq<char>>>,
    p: Seq<Seq<char>>,
)
    ensures
        ({
            let volumes = path::parse_parts("/Volumes"@);
            let skip = skipped(root, mounted);
            &&& !below(root, volumes) && mounted.contains(p) && p != root ==> skip.contains(p)
            &&& below(root, volumes) ==> skip == skipped(root, Seq::empty())
            &&& below(root, volumes) && skip.contains(p) ==> skipped(
                root,
                Seq::empty(),
            ).contains(p)
        }),
{
    let skip = skipped(root, mounted);
    if below(root, path::parse_parts("/Volumes"@)) {
        assert(skip =~= skipped(root, Seq::empty()));
    } else if mounted.contains(p) {
        assert(mounted.to_set().contains(p));
    }
}

/// A scan of the whole disk leaves out every mounted volume.
pub proof fn lemma_whole_disk_leaves_out_volumes(
    mounted: Seq<Seq<Seq<char>>>,
    p: Seq<Seq<char>>,
)
    requires
        mounted.contains(p),
        p != path::parse_parts("/"@),
    ensures
        skipped(path::parse_parts("/"@), mounted).contains(p),
{
    let root = path::parse_parts("/"@);
    reveal_strlit("/");
    reveal_strlit("/Volumes");
    assert("/"@ =~= seq!['/']);
    assert("/Volumes"@ =~= seq!['/'] + seq!['V', 'o', 'l', 'u', 'm', 'e', 's']);
    path::lemma_absolute(seq!['V', 'o', 'l', 'u', 'm', 'e', 's']);
    assert(!below(root, path::parse_parts("/Volumes"@)));
    lemma_mounted_volumes(root, mounted, p);
}

/// The volume with the user's files is left out of every scan from outside it, and a scan
/// from within it leaves out none of the system's volumes: so that what can be reached
/// twice counts once.
pub proof fn lemma_data_counts_once(root: Seq<Seq<char>>, mounted: Seq<Seq<Seq<char>>>)
    ensures
        ({
            let data = path::parse_parts("/System/Volumes/Data"@);
            let skip = skipped(root, mounted);
            &&& !below(root, data) ==> skip.contains(data)
            &&& below(root, data) ==> forall|p: Seq<Seq<char>>| #[trigger]
                skip.contains(p) ==> mounted.contains(p)
        }),
{
}

/// No scan leaves out its own root, or what holds it, where the mounted volumes are
/// entries of their directory.
pub proof fn lemma_root_is_scanned(
    root: Seq<Seq<char>>,
    mounted: Seq<Seq<Seq<char>>>,
    p: Seq<Seq<char>>,
)
    requires
        forall|i: int|
            0 <= i < mounted.len() ==> below(
                #[trigger] mounted[i],
                path::parse_parts("/Volumes"@),
            ),
        below(root, p),
    ensures
        !skipped(root, mounted).contains(p),
{
    if skipped(root, mounted).contains(p) && mounted.contains(p) {
        let i = mounted.index_of(p);
        lemma_below_again(root, mounted[i], path::parse_parts("/Volumes"@));
    }
}

/// What `build_skip_set` gives out for a scan is passed over by that scan: every directory
/// that is mounted as a volume, unless the scan began among the volumes or right there.
pub proof fn lemma_volume_is_passed_over(
    root: NodePath,
    mounted: Vec<NodePath>,
    skip: PathSet,
    volume: NodePath,
    seen: Visit,
)
    requires
        call_ensures(build_skip_set, (&root, &mounted), skip),
        call_ensures(scanner::visit, (false, EntryKind::Dir, &volume, &skip), seen),
        path::path_views(mounted@).contains(volume@),
        volume@ != root@,
        !below(root@, path::parse_parts("/Volumes"@)),
    ensures
        seen == Visit::Ignore,
{
    lemma_mounted_volumes(root@, path::path_views(mounted@), volume@);
}

/// The other volumes of the system are left out of every scan from outside the data volume
/// that did not begin in them.
pub proof fn lemma_system_volumes(root: Seq<Seq<char>>, mounted: Seq<Seq<Seq<char>>>, k: int)
    requires
        !below(root, path::parse_parts("/System/Volumes/Data"@)),
        0 <= k < 11,
    ensures
        ({
            let names = seq![
                "/System/Volumes/Preboot"@,
                "/System/Volumes/Recovery"@,
                "/System/Volumes/VM"@,
                "/System/Volumes/Update"@,
                "/System/Volumes/BaseSystem"@,
                "/System/Volumes/FieldService"@,
                "/System/Volumes/FieldServiceDiagnostic"@,
                "/System/Volumes/FieldServiceRepair"@,
                "/System/Volumes/iSCPreboot"@,
                "/System/Volumes/xarts"@,
                "/System/Volumes/Hardware"@,
            ];
            let volume = path::parse_parts(names[k]);
            skipped(root, mounted).contains(volume) || below(root, volume)
        }),
{
    assert(SYSTEM_VOLUMES@.len() == 11);
    let volume = path::parse_parts(SYSTEM_VOLUMES@[k]@);
    assert(other_system_volumes(root).contains(volume) || within(root, volume));
}

/// Whether an entry of the directory of volumes is a volume of its own: a directory that
/// is not the root under another name, and of known size.
pub open spec fn is_volume(entry: VolumeEntry) -> bool {
    entry.is_dir && !entry.is_root && entry.space is Some
}

/// Each entry that is a volume of its own is listed, with its path and its bytes, and
/// nothing else is, but for the root.
pub proof fn lemma_listed_volumes(entries: Seq<VolumeEntry>, n: nat)
    requires
        n <= entries.len(),
    ensures
        ({
            let listed = entry_volumes(entries, n);
            &&& forall|k: int| #![trigger entries[k]]
                0 <= k < n && is_volume(entries[k]) ==> exists|i: int|
                    0 <= i < listed.len() && (#[trigger] listed[i]).path
                        == entries[k].path.place() && (
                    listed[i].total_bytes,
                    listed[i].available_bytes,
                ) == entries[k].space->0
            &&& forall|i: int| #![trigger listed[i]]
                0 <= i < listed.len() ==> exists|k: int|
                    0 <= k < n && is_volume(#[trigger] entries[k]) && listed[i].path
                        == entries[k].path.place() && (
                    listed[i].total_bytes,
                    listed[i].available_bytes,
                ) == entries[k].space->0
        }),
    decreases n,
{
    if n > 0 {
        let less = (n - 1) as nat;
        let before = entry_volumes(entries, less);
        let listed = entry_volumes(entries, n);
        lemma_listed_volumes(entries, less);
        assert forall|k: int| #![trigger entries[k]]
            0 <= k < n && is_volume(entries[k]) implies exists|i: int|
            0 <= i < listed.len() && (#[trigger] listed[i]).path == entries[k].path.place() && (
                listed[i].total_bytes,
                listed[i].available_bytes,
            ) == entries[k].space->0 by {
            if k < n - 1 {
                let i = choose|i: int|
                    0 <= i < before.len() && (#[trigger] before[i]).path
                        == entries[k].path.place() && (
                        before[i].total_bytes,
                        before[i].available_bytes,
                    ) == entries[k].space->0;
                assert(listed[i] == before[i]);
            } else {
                assert(listed[before.len() as int].path == entries[k].path.place());
            }
        }
        assert forall|i: int| #![trigger listed[i]] 0 <= i < listed.len() implies exists|k: int|
            0 <= k < n && is_volume(#[trigger] entries[k]) && listed[i].path
                == entries[k].path.place() && (
                listed[i].total_bytes,
                listed[i].available_bytes,
            ) == entries[k].space->0 by {
            if i < before.len() {
                assert(listed[i] == before[i]);
            } else {
                assert(is_volume(entries[n - 1]));
            }
        }
    }
}

/// The root comes first, under its own name, where its size is known.
pub proof fn lemma_root_listed(space: Option<(u64, u64)>)
    ensures
        space is None ==> root_volume(space).len() == 0,
        space is Some ==> {
            &&& root_volume(space).len() == 1
            &&& root_volume(space)[0].path.text == "/"@
            &&& root_volume(space)[0].name == "Macintosh HD"@
            &&& (root_volume(space)[0].total_bytes, root_volume(space)[0].available_bytes)
                == space->0
        },
{
}

} // verus!
