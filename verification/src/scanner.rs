//! Building the tree of a scan from what the file system lists.

use vstd::prelude::*;

use crate::bulk;
use crate::bulk::{BulkEntry, UF_HIDDEN};
use crate::path;
use crate::path::{NodePath, PathSet};
use crate::text;
use crate::text::{owned, push_decimal, starts_with_dot};
use crate::tree;
use crate::tree::{FileNode, Tree, HIDDEN_BIT};

verus! {

/// A directory with more subdirectories than this is scanned by several
/// threads.
pub const PAR_THRESHOLD: usize = 4;

/// Why a directory was scanned the slow way.
#[derive(Clone, Copy, Debug, PartialEq, Eq, Structural)]
pub enum FallbackKind {
    /// It may not be opened.
    AccessDenied,
    /// It could not be opened.
    Open,
    /// It could not be listed.
    BulkScan,
}

impl FallbackKind {
    /// The words for the kind.
    pub open spec fn title(self) -> Seq<char> {
        match self {
            FallbackKind::AccessDenied => "protected"@,
            FallbackKind::Open => "open issue"@,
            FallbackKind::BulkScan => "scan issue"@,
        }
    }

    pub fn label(self) -> (label: &'static str)
        ensures
            label@ == self.title(),
    {
        match self {
            FallbackKind::AccessDenied => "protected",
            FallbackKind::Open => "open issue",
            FallbackKind::BulkScan => "scan issue",
        }
    }
}

/// One directory that was scanned the slow way.
pub struct ScanFallbackDetail {
    pub kind: FallbackKind,
    pub path: String,
    pub error: String,
}

/// Such a directory as a mathematical value.
pub struct Fallback {
    pub kind: FallbackKind,
    pub path: Seq<char>,
    pub error: Seq<char>,
}

impl View for ScanFallbackDetail {
    type V = Fallback;

    open spec fn view(&self) -> Fallback {
        Fallback { kind: self.kind, path: self.path@, error: self.error@ }
    }
}

/// Such directories as mathematical values.
pub open spec fn fallback_views(details: Seq<ScanFallbackDetail>) -> Seq<Fallback> {
    details.map_values(|detail: ScanFallbackDetail| detail@)
}

/// A counter after `n` more. It wraps around at 2^64.
pub open spec fn tallied(count: nat, n: nat) -> nat {
    (count + n) % 0x1_0000_0000_0000_0000
}

/// How far a scan has come.
pub struct ScanProgress {
    pub file_count: u64,
    pub total_size: u64,
    pub fallback_count: u64,
    pub access_denied_fallback_count: u64,
    pub bulk_scan_fallback_count: u64,
    pub fallback_details: Vec<ScanFallbackDetail>,
    pub cancelled: bool,
}

impl ScanProgress {
    /// A scan that has found nothing yet.
    pub fn new() -> (progress: Self)
        ensures
            progress.file_count == 0,
            progress.total_size == 0,
            progress.fallback_count == 0,
            progress.access_denied_fallback_count == 0,
            progress.bulk_scan_fallback_count == 0,
            progress.fallback_details@.len() == 0,
            !progress.cancelled,
    {
        ScanProgress {
            file_count: 0,
            total_size: 0,
            fallback_count: 0,
            access_denied_fallback_count: 0,
            bulk_scan_fallback_count: 0,
            fallback_details: Vec::new(),
            cancelled: false,
        }
    }

    /// Counts files. The counters wrap around at 2^64.
    pub fn record_files(&mut self, count: u64, bytes: u64)
        ensures
            final(self).file_count == tallied(old(self).file_count as nat, count as nat),
            final(self).total_size == tallied(old(self).total_size as nat, bytes as nat),
            final(self).fallback_count == old(self).fallback_count,
            final(self).access_denied_fallback_count == old(self).access_denied_fallback_count,
            final(self).bulk_scan_fallback_count == old(self).bulk_scan_fallback_count,
            final(self).fallback_details == old(self).fallback_details,
            final(self).cancelled == old(self).cancelled,
    {
        self.file_count = self.file_count.wrapping_add(count);
        self.total_size = self.total_size.wrapping_add(bytes);
    }

    /// Notes a directory that was scanned the slow way.
    pub fn record_fallback(&mut self, kind: FallbackKind, path: &str, error: &str)
        ensures
            final(self).fallback_count == (old(self).fallback_count + 1)
                % 0x1_0000_0000_0000_0000,
            final(self).access_denied_fallback_count == (if kind == FallbackKind::AccessDenied {
                (old(self).access_denied_fallback_count + 1) % 0x1_0000_0000_0000_0000
            } else {
                old(self).access_denied_fallback_count as int
            }),
            final(self).bulk_scan_fallback_count == (if kind == FallbackKind::BulkScan {
                (old(self).bulk_scan_fallback_count + 1) % 0x1_0000_0000_0000_0000
            } else {
                old(self).bulk_scan_fallback_count as int
            }),
            fallback_views(final(self).fallback_details@) == fallback_views(
                old(self).fallback_details@).push(
                (Fallback { kind, path: path@, error: error@ }),
            ),
            final(self).file_count == old(self).file_count,
            final(self).total_size == old(self).total_size,
            final(self).cancelled == old(self).cancelled,
    {
        let ghost before = fallback_views(self.fallback_details@);
        self.fallback_count = self.fallback_count.wrapping_add(1);
        match kind {
            FallbackKind::AccessDenied => {
                self.access_denied_fallback_count =
                self.access_denied_fallback_count.wrapping_add(1);
            },
            FallbackKind::BulkScan => {
                self.bulk_scan_fallback_count = self.bulk_scan_fallback_count.wrapping_add(1);
            },
            FallbackKind::Open => {},
        }
        self.fallback_details.push(
            ScanFallbackDetail { kind, path: owned(path), error: owned(error) },
        );
        assert(fallback_views(self.fallback_details@) =~= before.push(
            self.fallback_details@.last()@,
        ));
    }
}

/// `a` reduced by `b`, but not below zero.
pub open spec fn minus(a: nat, b: nat) -> nat {
    if a >= b {
        (a - b) as nat
    } else {
        0
    }
}

/// The ending of the plural.
pub open spec fn plural(n: nat) -> Seq<char> {
    if n == 1 {
        ""@
    } else {
        "s"@
    }
}

/// `n` and a word, or nothing where `n` is 0.
pub open spec fn counted(n: nat, word: Seq<char>) -> Seq<Seq<char>> {
    if n > 0 {
        seq![text::decimal(n) + word]
    } else {
        Seq::empty()
    }
}

/// Texts with commas between them.
pub open spec fn listed(parts: Seq<Seq<char>>) -> Seq<char>
    decreases parts.len(),
{
    if parts.len() == 0 {
        Seq::empty()
    } else if parts.len() == 1 {
        parts[0]
    } else {
        listed(parts.drop_last()) + ", "@ + parts.last()
    }
}

/// What is said of the directories that were scanned the slow way.
pub open spec fn fallback_summary(total: nat, denied: nat, bulk_scan: nat) -> Option<Seq<char>> {
    let other = minus(minus(total, denied), bulk_scan);
    if total == 0 {
        None
    } else if denied > 0 && other == 0 && bulk_scan == 0 {
        Some(
            "compatibility mode used for "@ + text::decimal(denied) + " protected folder"@ + plural(
                denied,
            ),
        )
    } else {
        let parts = counted(denied, " protected"@) + counted(other, " open issue"@) + counted(
            bulk_scan,
            " scan issue"@,
        );
        Some(
            "compatibility mode used for "@ + text::decimal(total) + " folder"@ + plural(total)
                + " ("@ + listed(parts) + ")"@,
        )
    }
}

fn push_plural(text: &mut String, n: u64)
    ensures
        final(text)@ == old(text)@ + plural(n as nat),
{
    if n != 1 {
        text.append("s");
    } else {
        proof {
            reveal_strlit("");
        }
        assert(text@ =~= text@ + ""@);
    }
}

/// Appends one more of the texts with commas between them.
fn push_counted(
    text: &mut String,
    first: bool,
    n: u64,
    word: &str,
    Ghost(head): Ghost<Seq<char>>,
    Ghost(parts): Ghost<Seq<Seq<char>>>,
) -> (still_first: bool)
    requires
        old(text)@ == head + listed(parts),
        first == (parts.len() == 0),
    ensures
        final(text)@ == head + listed(parts + counted(n as nat, word@)),
        still_first == ((parts + counted(n as nat, word@)).len() == 0),
{
    if n == 0 {
        assert(parts + counted(n as nat, word@) =~= parts);
        return first;
    }
    let ghost one = text::decimal(n as nat) + word@;
    let ghost all = parts + counted(n as nat, word@);
    assert(all =~= parts.push(one));
    if !first {
        text.append(", ");
    }
    push_decimal(text, n);
    text.append(word);
    proof {
        if first {
            assert(all.len() == 1);
            assert(listed(all) == all[0]);
            assert(all[0] == one);
            assert(text@ =~= head + one);
        } else {
            assert(all.drop_last() =~= parts);
            assert(all.last() == one);
            assert(listed(all) == listed(parts) + ", "@ + one);
            assert(text@ =~= head + (listed(parts) + ", "@ + one));
        }
    }
    false
}

/// What is said of the directories that were scanned the slow way. None where
/// there are none.
pub fn format_fallback_summary(total: u64, access_denied: u64, bulk_scan: u64) -> (summary: Option<
    String,
>)
    ensures
        match summary {
            Some(summary) => fallback_summary(
                total as nat,
                access_denied as nat,
                bulk_scan as nat,
            ) == Some(summary@),
            None => fallback_summary(
                total as nat,
                access_denied as nat,
                bulk_scan as nat,
            ) is None,
        },
{
    if total == 0 {
        return None;
    }
    let other: u64 = total.saturating_sub(access_denied).saturating_sub(bulk_scan);
    let mut summary = owned("compatibility mode used for ");
    if access_denied > 0 && other == 0 && bulk_scan == 0 {
        push_decimal(&mut summary, access_denied);
        summary.append(" protected folder");
        push_plural(&mut summary, access_denied);
        return Some(summary);
    }
    push_decimal(&mut summary, total);
    summary.append(" folder");
    push_plural(&mut summary, total);
    summary.append(" (");
    let ghost head = summary@;
    let ghost none = Seq::<Seq<char>>::empty();
    let ghost a = counted(access_denied as nat, " protected"@);
    let ghost b = counted(other as nat, " open issue"@);
    assert(head + listed(none) =~= head);
    let first: bool = push_counted(
        &mut summary,
        true,
        access_denied,
        " protected",
        Ghost(head),
        Ghost(none),
    );
    assert(none + a =~= a);
    let first: bool = push_counted(
        &mut summary,
        first,
        other,
        " open issue",
        Ghost(head),
        Ghost(a),
    );
    push_counted(&mut summary, first, bulk_scan, " scan issue", Ghost(head), Ghost(a + b));
    summary.append(")");
    Some(summary)
}

/// What an entry of a directory is.
#[derive(Clone, Copy, Debug, PartialEq, Eq, Structural)]
pub enum EntryKind {
    Dir,
    File,
    Other,
}

/// What a scan does with an entry.
#[derive(Clone, Copy, Debug, PartialEq, Eq, Structural)]
pub enum Visit {
    Ignore,
    Descend,
    Record,
}

/// What to do with the entry at `path`: directories are scanned unless they
/// are to be skipped, files are recorded, links and the like are ignored. A
/// cancelled scan ignores everything.
pub fn visit(cancelled: bool, kind: EntryKind, path: &NodePath, skip: &PathSet) -> (visit: Visit)
    ensures
        visit == (if cancelled {
            Visit::Ignore
        } else {
            match kind {
                EntryKind::Dir => if skip@.contains(path@) {
                    Visit::Ignore
                } else {
                    Visit::Descend
                },
                EntryKind::File => Visit::Record,
                EntryKind::Other => Visit::Ignore,
            }
        }),
{
    if cancelled {
        return Visit::Ignore;
    }
    match kind {
        EntryKind::Dir => if skip.contains(path) {
            Visit::Ignore
        } else {
            Visit::Descend
        },
        EntryKind::File => Visit::Record,
        EntryKind::Other => Visit::Ignore,
    }
}

/// What a file of this many blocks takes on disk.
pub fn disk_usage(blocks: u64) -> (bytes: u64)
    requires
        blocks * 512 <= u64::MAX,
    ensures
        bytes == blocks * 512,
{
    blocks * 512
}

/// Whether an entry with this name and these flags is hidden.
pub fn is_hidden_from_metadata(name: &str, flags: u32) -> (hidden: bool)
    ensures
        hidden == (text::dotted(name@) || flags & UF_HIDDEN != 0),
{
    starts_with_dot(name) || flags & UF_HIDDEN != 0
}

/// What the directory at a path is called: its last part, or the whole path
/// where that names nothing.
pub open spec fn dir_label(place: path::Place) -> Seq<char> {
    let parts = place.parts;
    if parts.len() > 0 && parts.last() != path::root_part() && parts.last() != seq!['.']
        && parts.last() != seq!['.', '.'] {
        parts.last()
    } else {
        place.text
    }
}

pub fn dir_name(path: &NodePath) -> (name: String)
    ensures
        name@ == dir_label(path.place()),
{
    match path.file_name() {
        Some(name) => owned(name),
        None => path.to_text(),
    }
}

/// Whether the subdirectories are worth several threads.
pub fn in_parallel(subdirectories: usize) -> (yes: bool)
    ensures
        yes == (subdirectories > PAR_THRESHOLD),
{
    subdirectories > PAR_THRESHOLD
}

/// A file as it stands in the tree. A size of 2^63 or more loses its top bit,
/// which marks the file hidden.
pub open spec fn file_tree(entry: bulk::Listed) -> Tree {
    Tree {
        name: entry.name,
        size: (entry.size % (HIDDEN_BIT as nat)) as u64,
        dir: false,
        hidden: entry.hidden || entry.size >= HIDDEN_BIT,
        expanded: false,
        sorted: true,
        kids: Seq::empty(),
    }
}

/// The files among entries.
pub open spec fn listed_files(entries: Seq<bulk::Listed>) -> Seq<Tree>
    decreases entries.len(),
{
    if entries.len() == 0 {
        Seq::empty()
    } else {
        let before = listed_files(entries.drop_last());
        if entries.last().is_dir {
            before
        } else {
            before.push(file_tree(entries.last()))
        }
    }
}

/// The directories among entries: their names and whether they are hidden.
pub open spec fn listed_dirs(entries: Seq<bulk::Listed>) -> Seq<(Seq<char>, bool)>
    decreases entries.len(),
{
    if entries.len() == 0 {
        Seq::empty()
    } else {
        let before = listed_dirs(entries.drop_last());
        if entries.last().is_dir {
            before.push((entries.last().name, entries.last().hidden))
        } else {
            before
        }
    }
}

/// The bytes in the files among entries.
pub open spec fn listed_bytes(entries: Seq<bulk::Listed>) -> nat
    decreases entries.len(),
{
    if entries.len() == 0 {
        0
    } else {
        listed_bytes(entries.drop_last()) + if entries.last().is_dir {
            0
        } else {
            entries.last().size
        }
    }
}

/// The directories as mathematical values.
pub open spec fn dir_views(dirs: Seq<(String, bool)>) -> Seq<(Seq<char>, bool)> {
    dirs.map_values(|dir: (String, bool)| (dir.0@, dir.1))
}

/// The entries of a directory, files and directories apart. The bytes in the
/// files are counted modulo 2^64.
pub struct Listing {
    pub files: Vec<FileNode>,
    pub dirs: Vec<(String, bool)>,
    pub bytes: u64,
}

/// Takes the entries of a directory apart.
pub fn sort_out(entries: Vec<BulkEntry>) -> (listing: Listing)
    ensures
        tree::trees(listing.files@) == listed_files(bulk::entry_views(entries@)),
        dir_views(listing.dirs@) == listed_dirs(bulk::entry_views(entries@)),
        listing.bytes == listed_bytes(bulk::entry_views(entries@)) % 0x1_0000_0000_0000_0000,
{
    let ghost all = bulk::entry_views(entries@);
    let mut files: Vec<FileNode> = Vec::new();
    let mut dirs: Vec<(String, bool)> = Vec::new();
    let mut bytes: u64 = 0;
    assert(all.take(0) =~= Seq::<bulk::Listed>::empty());
    assert(tree::trees(files@) =~= Seq::<Tree>::empty());
    assert(dir_views(dirs@) =~= Seq::<(Seq<char>, bool)>::empty());
    for entry in it: entries
        invariant
            it.seq() == entries@,
            all == bulk::entry_views(entries@),
            tree::trees(files@) == listed_files(all.take(it.index() as int)),
            dir_views(dirs@) == listed_dirs(all.take(it.index() as int)),
            bytes == listed_bytes(all.take(it.index() as int)) % 0x1_0000_0000_0000_0000,
    {
        let ghost n = it.index() as int;
        let ghost upto = all.take(n + 1);
        let ghost before = tree::trees(files@);
        let ghost folders = dir_views(dirs@);
        proof {
            assert(upto.drop_last() =~= all.take(n));
            assert(upto.last() == entry@);
        }
        if entry.is_dir {
            dirs.push((entry.name, entry.hidden));
            assert(dir_views(dirs@) =~= folders.push((entry.name@, entry.hidden)));
        } else {
            bytes = bytes.wrapping_add(entry.size);
            files.push(FileNode::new_file(entry.name, entry.size, entry.hidden));
            assert(files@.last()@ =~= file_tree(entry@));
            assert(tree::trees(files@) =~= before.push(file_tree(entry@)));
        }
    }
    assert(all.take(all.len() as int) =~= all);
    Listing { files, dirs, bytes }
}

/// The sum of the sizes of nodes; None where it does not fit.
pub fn checked_total(nodes: &[FileNode]) -> (total: Option<u64>)
    ensures
        total == (if tree::total_size(tree::trees(nodes@)) <= u64::MAX {
            Some(tree::total_size(tree::trees(nodes@)) as u64)
        } else {
            None
        }),
{
    let ghost kids = tree::trees(nodes@);
    let mut total: u64 = 0;
    let mut i: usize = 0;
    assert(kids.take(0) =~= Seq::<Tree>::empty());
    while i < nodes.len()
        invariant
            i <= nodes@.len(),
            kids == tree::trees(nodes@),
            total == tree::total_size(kids.take(i as int)),
        decreases nodes@.len() - i,
    {
        proof {
            assert(kids.take(i + 1).drop_last() =~= kids.take(i as int));
            tree::lemma_total_prefix(kids, i + 1);
        }
        let size: u64 = nodes[i].size();
        if size > u64::MAX - total {
            return None;
        }
        total += size;
        i += 1;
    }
    assert(kids.take(i as int) =~= kids);
    Some(total)
}

/// A directory with these entries, closed and as large as they are together.
pub open spec fn closed_dir(name: Seq<char>, hidden: bool, kids: Seq<Tree>) -> Tree {
    Tree {
        name,
        size: tree::total_size(kids) as u64,
        dir: true,
        hidden,
        expanded: false,
        sorted: false,
        kids,
    }
}

/// The node of a directory that was not scanned.
pub fn empty_dir(name: String, hidden: bool) -> (node: FileNode)
    ensures
        node@ == closed_dir(name@, hidden, Seq::empty()),
{
    let children: Vec<FileNode> = Vec::new();
    assert(tree::trees(children@) =~= Seq::<Tree>::empty());
    FileNode::new_dir(name, 0, children, hidden)
}

/// The node of a directory with its files, which come first, and its
/// subdirectories.
pub fn walk_dir_bulk(
    name: String,
    hidden: bool,
    files: Vec<FileNode>,
    dirs: Vec<FileNode>,
) -> (node: FileNode)
    requires
        tree::total_size(tree::trees(files@) + tree::trees(dirs@)) <= u64::MAX,
    ensures
        node@ == closed_dir(name@, hidden, tree::trees(files@) + tree::trees(dirs@)),
{
    let mut children = files;
    let mut rest = dirs;
    children.append(&mut rest);
    assert(tree::trees(children@) =~= tree::trees(files@) + tree::trees(dirs@));
    let size: u64 = tree::sum_sizes(children.as_slice());
    FileNode::new_dir(name, size, children, hidden)
}

/// The node of a directory with its entries, the largest first.
pub fn walk_dir(name: String, hidden: bool, entries: Vec<FileNode>) -> (node: FileNode)
    requires
        tree::total_size(tree::trees(entries@)) <= u64::MAX,
    ensures
        node@ == closed_dir(name@, hidden, tree::by_size(tree::trees(entries@))),
{
    proof {
        assert(tree::trees(entries@).len() == entries.len());
        tree::lemma_by_size(tree::trees(entries@));
    }
    let children = tree::largest_first(entries);
    let size: u64 = tree::sum_sizes(children.as_slice());
    FileNode::new_dir(name, size, children, hidden)
}

/// The tree of a scan: the scanned directory, shown, under the path that was
/// scanned.
pub fn scan_directory(root: &str, scanned: FileNode) -> (tree: FileNode)
    ensures
        tree@ == (if scanned@.dir {
            (Tree { name: root@, ..tree::opened(scanned@, true) })
        } else {
            scanned@
        }),
{
    let mut tree = scanned;
    tree.set_expanded(true);
    if let Some(dir) = tree.as_dir_mut() {
        dir.rename(owned(root));
    }
    tree
}

/// The bytes of a file system and those that are available, from its blocks,
/// the available blocks and their size. None where it could not be asked.
pub fn disk_space(stat: Option<(u64, u64, u64)>) -> (space: Option<(u64, u64)>)
    requires
        stat matches Some((blocks, available, size)) ==> blocks * size <= u64::MAX && available
            * size <= u64::MAX,
    ensures
        space == (match stat {
            Some((blocks, available, size)) => Some(
                ((blocks * size) as u64, (available * size) as u64),
            ),
            None => None,
        }),
{
    match stat {
        Some((blocks, available, size)) => Some((blocks * size, available * size)),
        None => None,
    }
}

/// What is said of the directories that were scanned the slow way counts all of them: those
/// that may not be opened, those that could not be, and those that could not be listed.
pub proof fn lemma_fallback_summary(denied: nat, unopened: nat, unlisted: nat)
    ensures
        ({
            let total = denied + unopened + unlisted;
            let said = fallback_summary(total, denied, unlisted);
            &&& said is None <==> total == 0
            &&& said is Some && unopened == 0 && unlisted == 0 ==> text::has_prefix(
                said->0,
                "compatibility mode used for "@ + text::decimal(denied) + " protected folder"@,
            )
            &&& unopened > 0 && denied == 0 && unlisted == 0 ==> said == Some(
                "compatibility mode used for "@ + text::decimal(unopened) + " folder"@ + plural(
                    unopened,
                ) + " ("@ + (text::decimal(unopened) + " open issue"@) + ")"@,
            )
            &&& unlisted > 0 && denied == 0 && unopened == 0 ==> said == Some(
                "compatibility mode used for "@ + text::decimal(unlisted) + " folder"@ + plural(
                    unlisted,
                ) + " ("@ + (text::decimal(unlisted) + " scan issue"@) + ")"@,
            )
        }),
        plural(1) == ""@,
        denied != 1 ==> plural(denied) == "s"@,
{
    let total = denied + unopened + unlisted;
    let said = fallback_summary(total, denied, unlisted);
    if said is Some && unopened == 0 && unlisted == 0 {
        let head = "compatibility mode used for "@ + text::decimal(denied)
            + " protected folder"@;
        assert(said->0.take(head.len() as int) =~= head);
    }
    if unopened > 0 && denied == 0 && unlisted == 0 {
        let one = text::decimal(unopened) + " open issue"@;
        let parts = counted(denied, " protected"@) + counted(unopened, " open issue"@) + counted(
            unlisted,
            " scan issue"@,
        );
        assert(parts =~= seq![one]);
    }
    if unlisted > 0 && denied == 0 && unopened == 0 {
        let one = text::decimal(unlisted) + " scan issue"@;
        let parts = counted(denied, " protected"@) + counted(unopened, " open issue"@) + counted(
            unlisted,
            " scan issue"@,
        );
        assert(parts =~= seq![one]);
    }
}

/// A tree is called by the path that was scanned, is open, and holds what was found there.
pub proof fn lemma_scanned_tree(root: &str, scanned: FileNode, tree: FileNode)
    requires
        call_ensures(scan_directory, (root, scanned), tree),
        scanned@.dir,
        scanned@.kids.len() <= usize::MAX,
    ensures
        tree@.name == root@,
        tree@.dir && tree@.expanded,
        tree@.size == scanned@.size,
        tree@.hidden == scanned@.hidden,
        tree@.kids.to_multiset() == scanned@.kids.to_multiset(),
{
    tree::lemma_opened_keeps_entries(scanned@, true);
}

/// A directory is called by its own name, and the root of all by how it is written.
pub proof fn lemma_dir_name(path: &NodePath, parent: path::Place, name: Seq<char>, called: String)
    requires
        call_ensures(dir_name, (path,), called),
    ensures
        path::plain_name(name) && name != seq!['.', '.'] && path.place() == path::join_place(
            parent,
            name,
        ) ==> called@ == name,
        path.place().parts == seq![path::root_part()] ==> called@ == path.place().text,
{
    if path::plain_name(name) && name != seq!['.', '.'] && path.place() == path::join_place(
        parent,
        name,
    ) {
        path::lemma_join_plain(parent.parts, name);
        if name == path::root_part() {
            assert(name[0] == '/');
            assert(name.contains('/'));
        }
    }
}

} // verus!
