//! What a scan records.

use vstd::prelude::*;

use crate::bulk;
use crate::path::{NodePath, PathSet};
use crate::scanner;
use crate::scanner::{
    disk_space, disk_usage, is_hidden_from_metadata, visit, EntryKind, FallbackKind, ScanProgress,
    Visit,
};
use crate::tree;
use crate::tree::Tree;

verus! {

/// A scan goes into every directory that it does not leave out, and into nothing else; it
/// records every file, and nothing else; once cancelled it does neither.
pub proof fn lemma_visits(
    cancelled: bool,
    kind: EntryKind,
    path: NodePath,
    skip: PathSet,
    seen: Visit,
)
    requires
        call_ensures(visit, (cancelled, kind, &path, &skip), seen),
    ensures
        seen == Visit::Descend <==> kind == EntryKind::Dir && !skip@.contains(path@) && !cancelled,
        seen == Visit::Record <==> kind == EntryKind::File && !cancelled,
{
}

/// An entry is hidden where its name begins with a dot, and where the system marks it.
pub proof fn lemma_hidden(name: &str, flags: u32, hidden: bool)
    requires
        call_ensures(is_hidden_from_metadata, (name, flags), hidden),
    ensures
        name@.len() > 0 && name@[0] == '.' ==> hidden,
        flags & 0x8000u32 == 0x8000u32 ==> hidden,
        (name@.len() == 0 || name@[0] != '.') && flags & 0x8000u32 == 0 ==> !hidden,
{
}

/// What files take on disk adds up, in blocks of 512 bytes.
pub proof fn lemma_usage(a: u64, b: u64, both: u64, x: u64, y: u64, z: u64)
    requires
        both == a + b,
        call_ensures(disk_usage, (a,), x),
        call_ensures(disk_usage, (b,), y),
        call_ensures(disk_usage, (both,), z),
    ensures
        z == x + y,
        a == 1 ==> x == 512,
{
}

/// No more is available than a file system has, where it has no fewer blocks.
pub proof fn lemma_space(blocks: u64, available: u64, size: u64, space: Option<(u64, u64)>)
    requires
        call_ensures(disk_space, (Some((blocks, available, size)),), space),
        blocks * size <= u64::MAX,
        available <= blocks,
    ensures
        space is Some,
        ({
            let (total, free) = space->0;
            &&& free <= total
            &&& total == blocks * size
            &&& free == available * size
        }),
{
    assert(available * size <= blocks * size) by (nonlinear_arith)
        requires
            available <= blocks,
    ;
}

/// Whether a node records a file that was listed.
pub open spec fn records(node: Tree, entry: bulk::Listed) -> bool {
    &&& !node.dir
    &&& node.name == entry.name
    &&& node.size == entry.size
    &&& node.hidden == entry.hidden
    &&& node.kids.len() == 0
}

/// Every file that was listed is recorded with its name and its size, where it has fewer
/// than 2^63 bytes, and every directory is to be scanned; nothing else is, and nothing
/// twice.
pub proof fn lemma_listing(entries: Seq<bulk::Listed>)
    requires
        forall|i: int| 0 <= i < entries.len() ==> (#[trigger] entries[i]).size < tree::HIDDEN_BIT,
    ensures
        ({
            let files = scanner::listed_files(entries);
            let dirs = scanner::listed_dirs(entries);
            &&& files.len() + dirs.len() == entries.len()
            &&& forall|i: int| #![trigger entries[i]]
                0 <= i < entries.len() ==> if entries[i].is_dir {
                    dirs.contains((entries[i].name, entries[i].hidden))
                } else {
                    exists|k: int|
                        0 <= k < files.len() && records(#[trigger] files[k], entries[i])
                }
            &&& forall|k: int| #![trigger files[k]]
                0 <= k < files.len() ==> exists|i: int|
                    0 <= i < entries.len() && !(#[trigger] entries[i]).is_dir && records(
                        files[k],
                        entries[i],
                    )
        }),
    decreases entries.len(),
{
    let files = scanner::listed_files(entries);
    let dirs = scanner::listed_dirs(entries);
    if entries.len() > 0 {
        let front = entries.drop_last();
        let last = entries.last();
        let n = entries.len() - 1;
        assert(entries[n] == last);
        assert forall|i: int| 0 <= i < front.len() implies (#[trigger] front[i]).size
            < tree::HIDDEN_BIT by {
            assert(front[i] == entries[i]);
        }
        lemma_listing(front);
        let fewer = scanner::listed_files(front);
        let less = scanner::listed_dirs(front);
        assert forall|i: int| #![trigger entries[i]] 0 <= i < entries.len() implies if entries[i].is_dir {
            dirs.contains((entries[i].name, entries[i].hidden))
        } else {
            exists|k: int| 0 <= k < files.len() && records(#[trigger] files[k], entries[i])
        } by {
            if i < n {
                assert(front[i] == entries[i]);
                if entries[i].is_dir {
                    let k = less.index_of((entries[i].name, entries[i].hidden));
                    assert(dirs[k] == less[k]);
                } else {
                    let k = choose|k: int|
                        0 <= k < fewer.len() && records(#[trigger] fewer[k], front[i]);
                    assert(files[k] == fewer[k]);
                }
            } else if last.is_dir {
                assert(dirs[dirs.len() - 1] == (last.name, last.hidden));
            } else {
                assert(records(files[files.len() - 1], last));
            }
        }
        assert forall|k: int| #![trigger files[k]] 0 <= k < files.len() implies exists|i: int|
            0 <= i < entries.len() && !(#[trigger] entries[i]).is_dir && records(
                files[k],
                entries[i],
            ) by {
            if k < fewer.len() {
                assert(files[k] == fewer[k]);
                let i = choose|i: int|
                    0 <= i < front.len() && !(#[trigger] front[i]).is_dir && records(
                        fewer[k],
                        front[i],
                    );
                assert(entries[i] == front[i]);
            } else {
                assert(records(files[k], entries[n]));
            }
        }
    }
}

/// A directory is as large as what it holds, and holds what was found in it.
pub proof fn lemma_directory(name: Seq<char>, hidden: bool, kids: Seq<Tree>)
    requires
        tree::total_size(kids) <= u64::MAX,
    ensures
        ({
            let dir = scanner::closed_dir(name, hidden, kids);
            &&& dir.dir
            &&& dir.name == name
            &&& dir.hidden == hidden
            &&& dir.size == tree::total_size(kids)
            &&& dir.kids == kids
            &&& !dir.expanded
        }),
{
}

/// Each directory that was scanned the slow way is counted once, and under its kind.
pub proof fn lemma_fallback(
    progress: &mut ScanProgress,
    kind: FallbackKind,
    path: &str,
    error: &str,
)
    requires
        call_ensures(ScanProgress::record_fallback, (progress, kind, path, error), ()),
        old(progress).fallback_count < u64::MAX,
        old(progress).access_denied_fallback_count < u64::MAX,
        old(progress).bulk_scan_fallback_count < u64::MAX,
    ensures
        final(progress).fallback_count == old(progress).fallback_count + 1,
        final(progress).access_denied_fallback_count == old(progress).access_denied_fallback_count
            + if kind == FallbackKind::AccessDenied {
            1int
        } else {
            0
        },
        final(progress).bulk_scan_fallback_count == old(progress).bulk_scan_fallback_count
            + if kind == FallbackKind::BulkScan {
            1int
        } else {
            0
        },
        final(progress).file_count == old(progress).file_count,
        final(progress).total_size == old(progress).total_size,
{
}

/// Files that are recorded are counted with their bytes.
pub proof fn lemma_counted(progress: &mut ScanProgress, count: u64, bytes: u64)
    requires
        call_ensures(ScanProgress::record_files, (progress, count, bytes), ()),
        old(progress).file_count + count <= u64::MAX,
        old(progress).total_size + bytes <= u64::MAX,
    ensures
        final(progress).file_count == old(progress).file_count + count,
        final(progress).total_size == old(progress).total_size + bytes,
        final(progress).fallback_count == old(progress).fallback_count,
{
}

} // verus!
