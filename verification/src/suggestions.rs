//! What in a tree can be cleaned up.

use vstd::prelude::*;

use crate::agreement;
use crate::agreement::below;
use crate::color;
use crate::color::Rgb;
use crate::order;
use crate::order::{pick, rank};
use crate::path;
use crate::path::{NodePath, Place};
use crate::text;
use crate::text::{ends_with, extension_of, is_listed_lowered};
use crate::tree;
use crate::tree::{FileNode, Tree};

verus! {

#[derive(Clone, Copy, PartialEq, Eq, Hash, Debug, Structural)]
pub enum SafetyLevel {
    Safe,
    Caution,
}

impl SafetyLevel {
    pub open spec fn title(self) -> Seq<char> {
        match self {
            SafetyLevel::Safe => "Safe to delete"@,
            SafetyLevel::Caution => "Review first"@,
        }
    }

    pub fn label(self) -> (label: &'static str)
        ensures
            label@ == self.title(),
    {
        match self {
            SafetyLevel::Safe => "Safe to delete",
            SafetyLevel::Caution => "Review first",
        }
    }

    pub open spec fn hue(self) -> Rgb {
        match self {
            SafetyLevel::Safe => color::rgb(39, 174, 96),
            SafetyLevel::Caution => color::rgb(220, 150, 50),
        }
    }

    pub fn color(self) -> (color: Rgb)
        ensures
            color == self.hue(),
    {
        match self {
            SafetyLevel::Safe => Rgb { r: 39, g: 174, b: 96 },
            SafetyLevel::Caution => Rgb { r: 220, g: 150, b: 50 },
        }
    }
}

#[derive(Clone, Copy, PartialEq, Eq, Hash, Debug, Structural)]
pub enum SuggestionCategory {
    BuildArtifacts,
    PackageCaches,
    SystemCaches,
    IdeArtifacts,
    TempFiles,
    OldInstallers,
}

/// Every category, in the order in which equally large ones are listed.
pub const SUGGESTION_CATEGORIES: [SuggestionCategory; 6] = [
    SuggestionCategory::BuildArtifacts,
    SuggestionCategory::PackageCaches,
    SuggestionCategory::SystemCaches,
    SuggestionCategory::IdeArtifacts,
    SuggestionCategory::TempFiles,
    SuggestionCategory::OldInstallers,
];

impl SuggestionCategory {
    pub open spec fn title(self) -> Seq<char> {
        match self {
            SuggestionCategory::BuildArtifacts => "Build Artifacts"@,
            SuggestionCategory::PackageCaches => "Package Caches"@,
            SuggestionCategory::SystemCaches => "System Caches"@,
            SuggestionCategory::IdeArtifacts => "IDE Artifacts"@,
            SuggestionCategory::TempFiles => "Temp & Log Files"@,
            SuggestionCategory::OldInstallers => "Old Installers"@,
        }
    }

    pub fn label(self) -> (label: &'static str)
        ensures
            label@ == self.title(),
    {
        match self {
            SuggestionCategory::BuildArtifacts => "Build Artifacts",
            SuggestionCategory::PackageCaches => "Package Caches",
            SuggestionCategory::SystemCaches => "System Caches",
            SuggestionCategory::IdeArtifacts => "IDE Artifacts",
            SuggestionCategory::TempFiles => "Temp & Log Files",
            SuggestionCategory::OldInstallers => "Old Installers",
        }
    }

    pub open spec fn explanation(self) -> Seq<char> {
        match self {
            SuggestionCategory::BuildArtifacts =>
                "Compiler output, build directories that can be regenerated"@,
            SuggestionCategory::PackageCaches => "Downloaded dependencies that can be re-fetched"@,
            SuggestionCategory::SystemCaches => "Application and system caches"@,
            SuggestionCategory::IdeArtifacts => "IDE indexes, settings caches, and debug symbols"@,
            SuggestionCategory::TempFiles => "Temporary files, logs, crash reports, and backups"@,
            SuggestionCategory::OldInstallers => "Disk images and installer packages"@,
        }
    }

    pub fn description(self) -> (text: &'static str)
        ensures
            text@ == self.explanation(),
    {
        match self {
            SuggestionCategory::BuildArtifacts =>
                "Compiler output, build directories that can be regenerated",
            SuggestionCategory::PackageCaches => "Downloaded dependencies that can be re-fetched",
            SuggestionCategory::SystemCaches => "Application and system caches",
            SuggestionCategory::IdeArtifacts => "IDE indexes, settings caches, and debug symbols",
            SuggestionCategory::TempFiles => "Temporary files, logs, crash reports, and backups",
            SuggestionCategory::OldInstallers => "Disk images and installer packages",
        }
    }

    pub open spec fn risk(self) -> SafetyLevel {
        match self {
            SuggestionCategory::BuildArtifacts => SafetyLevel::Safe,
            SuggestionCategory::PackageCaches => SafetyLevel::Safe,
            SuggestionCategory::SystemCaches => SafetyLevel::Caution,
            SuggestionCategory::IdeArtifacts => SafetyLevel::Caution,
            SuggestionCategory::TempFiles => SafetyLevel::Safe,
            SuggestionCategory::OldInstallers => SafetyLevel::Caution,
        }
    }

    pub fn safety(self) -> (level: SafetyLevel)
        ensures
            level == self.risk(),
    {
        match self {
            SuggestionCategory::BuildArtifacts => SafetyLevel::Safe,
            SuggestionCategory::PackageCaches => SafetyLevel::Safe,
            SuggestionCategory::SystemCaches => SafetyLevel::Caution,
            SuggestionCategory::IdeArtifacts => SafetyLevel::Caution,
            SuggestionCategory::TempFiles => SafetyLevel::Safe,
            SuggestionCategory::OldInstallers => SafetyLevel::Caution,
        }
    }

    pub open spec fn symbol(self) -> Seq<char> {
        match self {
            SuggestionCategory::BuildArtifacts => "\u{1F3D7}"@,
            SuggestionCategory::PackageCaches => "\u{1F4E6}"@,
            SuggestionCategory::SystemCaches => "\u{1F5C4}"@,
            SuggestionCategory::IdeArtifacts => "\u{1F4BB}"@,
            SuggestionCategory::TempFiles => "\u{1F5D1}"@,
            SuggestionCategory::OldInstallers => "\u{1F4BF}"@,
        }
    }

    pub fn icon(self) -> (icon: &'static str)
        ensures
            icon@ == self.symbol(),
    {
        match self {
            SuggestionCategory::BuildArtifacts => "\u{1F3D7}",
            SuggestionCategory::PackageCaches => "\u{1F4E6}",
            SuggestionCategory::SystemCaches => "\u{1F5C4}",
            SuggestionCategory::IdeArtifacts => "\u{1F4BB}",
            SuggestionCategory::TempFiles => "\u{1F5D1}",
            SuggestionCategory::OldInstallers => "\u{1F4BF}",
        }
    }
}

/// A single detected item (directory or file) that can be cleaned.
pub struct SuggestionItem {
    pub path: NodePath,
    pub size: u64,
}

/// A group of suggestions under one category.
pub struct SuggestionGroup {
    pub category: SuggestionCategory,
    pub items: Vec<SuggestionItem>,
    pub total_size: u64,
    pub expanded: bool,
}

/// All detected suggestions after analyzing a scan.
pub struct SuggestionReport {
    pub groups: Vec<SuggestionGroup>,
    pub total_reclaimable: u64,
}

/// Directory names that indicate build artifacts.
pub const BUILD_DIRS: [&'static str; 12] = [
    "target",
    "build",
    "dist",
    "__pycache__",
    ".gradle",
    "DerivedData",
    ".next",
    ".nuxt",
    "out",
    ".build",
    "cmake-build-debug",
    "cmake-build-release",
];

/// Directory names that indicate package caches.
pub const PACKAGE_DIRS: [&'static str; 8] = [
    "node_modules",
    ".venv",
    "venv",
    "vendor",
    "Pods",
    ".tox",
    "bower_components",
    "__pypackages__",
];

/// Directory names that indicate system caches.
pub const CACHE_DIRS: [&'static str; 5] = ["Caches", ".cache", "Cache", "CacheStorage", "GPUCache"];

/// Directory names that indicate IDE artifacts.
pub const IDE_DIRS: [&'static str; 4] = [".idea", ".vs", ".vscode", ".fleet"];

/// File extensions for temp/log files.
pub const TEMP_EXTENSIONS: [&'static str; 6] = ["tmp", "temp", "log", "bak", "swp", "swo"];

/// File extensions for old installers.
pub const INSTALLER_EXTENSIONS: [&'static str; 5] = ["dmg", "pkg", "iso", "msi", "exe"];

/// What kind of cleanup an entry is for, by its name alone; ASCII case does
/// not matter but in `.dSYM`.
pub open spec fn name_kind(name: Seq<char>, dir: bool) -> Option<SuggestionCategory> {
    if dir {
        if text::listed_lowered(name, BUILD_DIRS@) {
            Some(SuggestionCategory::BuildArtifacts)
        } else if text::listed_lowered(name, PACKAGE_DIRS@) {
            Some(SuggestionCategory::PackageCaches)
        } else if text::listed_lowered(name, CACHE_DIRS@) {
            Some(SuggestionCategory::SystemCaches)
        } else if text::listed_lowered(name, IDE_DIRS@) || text::has_suffix(name, ".dSYM"@) {
            Some(SuggestionCategory::IdeArtifacts)
        } else {
            None
        }
    } else if text::listed_lowered(text::extension(name), TEMP_EXTENSIONS@) {
        Some(SuggestionCategory::TempFiles)
    } else if text::listed_lowered(text::extension(name), INSTALLER_EXTENSIONS@) {
        Some(SuggestionCategory::OldInstallers)
    } else {
        None
    }
}

/// What kind of cleanup a node is for. Empty nodes are for none.
pub open spec fn kind_of(tree: Tree) -> Option<SuggestionCategory> {
    if tree.size > 0 {
        name_kind(tree.name, tree.dir)
    } else {
        None
    }
}

/// An item as a mathematical value: its place and its size.
pub type Found = (Place, u64);

/// The items of a category in the tree whose own path is `at`. What is in an
/// item is not searched.
pub open spec fn items(tree: Tree, at: Place, cat: SuggestionCategory) -> Seq<Found>
    decreases tree, 0nat,
{
    match kind_of(tree) {
        Some(kind) => if kind == cat {
            seq![(at, tree.size)]
        } else {
            Seq::empty()
        },
        None => if tree.dir {
            items_among(tree.kids, tree.kids.len() as int, at, cat)
        } else {
            Seq::empty()
        },
    }
}

/// The items of a category in the first `n` entries of the folder at `at`.
pub open spec fn items_among(
    kids: Seq<Tree>,
    n: int,
    at: Place,
    cat: SuggestionCategory,
) -> Seq<Found>
    decreases kids, n as nat,
{
    if n <= 0 || n > kids.len() {
        Seq::empty()
    } else {
        items_among(kids, n - 1, at, cat) + items(
            kids[n - 1],
            path::join_place(at, kids[n - 1].name),
            cat,
        )
    }
}

/// The bytes of items together.
pub open spec fn bytes_of(found: Seq<Found>) -> nat
    decreases found.len(),
{
    if found.len() == 0 {
        0
    } else {
        bytes_of(found.drop_last()) + found.last().1 as nat
    }
}

/// A group as a mathematical value: its category, its items and their bytes.
pub type Group = (SuggestionCategory, Seq<Found>, u64);

/// The groups of the first `n` categories in the tree that have items.
pub open spec fn groups_found(tree: Tree, n: int) -> Seq<Group>
    decreases n,
{
    if n <= 0 {
        Seq::empty()
    } else {
        let before = groups_found(tree, n - 1);
        let cat = SUGGESTION_CATEGORIES@[n - 1];
        let found = items(tree, path::place(tree.name), cat);
        if found.len() == 0 {
            before
        } else {
            before.push((cat, found, bytes_of(found) as u64))
        }
    }
}

/// The bytes of each group.
pub open spec fn group_bytes(groups: Seq<Group>) -> Seq<u64> {
    groups.map_values(|group: Group| group.2)
}

/// The groups in the tree, the one with most bytes first.
pub open spec fn report_groups(tree: Tree) -> Seq<Group> {
    let groups = groups_found(tree, 6);
    order::picked(groups, order::order_of(group_bytes(groups)))
}

/// The bytes of the items of all categories.
pub open spec fn reclaimable(tree: Tree, at: Place) -> nat {
    bytes_of(items(tree, at, SuggestionCategory::BuildArtifacts)) + bytes_of(
        items(tree, at, SuggestionCategory::PackageCaches),
    ) + bytes_of(items(tree, at, SuggestionCategory::SystemCaches)) + bytes_of(
        items(tree, at, SuggestionCategory::IdeArtifacts),
    ) + bytes_of(items(tree, at, SuggestionCategory::TempFiles)) + bytes_of(
        items(tree, at, SuggestionCategory::OldInstallers),
    )
}

/// Items as mathematical values.
pub open spec fn item_views(items: Seq<SuggestionItem>) -> Seq<Found> {
    items.map_values(|item: SuggestionItem| (item.path.place(), item.size))
}

/// Groups as mathematical values.
pub open spec fn group_views(groups: Seq<SuggestionGroup>) -> Seq<Group> {
    groups.map_values(
        |group: SuggestionGroup| (group.category, item_views(group.items@), group.total_size),
    )
}

/// The place of a category among all of them.
pub open spec fn position(cat: SuggestionCategory) -> int {
    match cat {
        SuggestionCategory::BuildArtifacts => 0,
        SuggestionCategory::PackageCaches => 1,
        SuggestionCategory::SystemCaches => 2,
        SuggestionCategory::IdeArtifacts => 3,
        SuggestionCategory::TempFiles => 4,
        SuggestionCategory::OldInstallers => 5,
    }
}

fn index_of(cat: SuggestionCategory) -> (index: usize)
    ensures
        index == position(cat),
        index < 6,
{
    match cat {
        SuggestionCategory::BuildArtifacts => 0,
        SuggestionCategory::PackageCaches => 1,
        SuggestionCategory::SystemCaches => 2,
        SuggestionCategory::IdeArtifacts => 3,
        SuggestionCategory::TempFiles => 4,
        SuggestionCategory::OldInstallers => 5,
    }
}

/// Whether a directory name is one of `patterns`, ASCII case aside.
pub fn matches_dir_pattern(name: &str, patterns: &[&'static str]) -> (found: bool)
    ensures
        found == text::listed_lowered(name@, patterns@),
{
    is_listed_lowered(name, patterns)
}

/// Whether what follows the last dot of a name is one of `extensions`, ASCII
/// case aside.
pub fn has_extension(name: &str, extensions: &[&'static str]) -> (found: bool)
    ensures
        found == text::listed_lowered(text::extension(name@), extensions@),
{
    is_listed_lowered(extension_of(name).as_str(), extensions)
}

/// Whether a directory holds debug symbols.
pub fn is_dsym(name: &str) -> (found: bool)
    ensures
        found == text::has_suffix(name@, ".dSYM"@),
{
    ends_with(name, ".dSYM")
}

/// What kind of cleanup a node is for.
pub fn classify(node: &FileNode) -> (kind: Option<SuggestionCategory>)
    ensures
        kind == kind_of(node@),
{
    if node.size() == 0 {
        return None;
    }
    let name = node.name();
    if node.is_dir() {
        if matches_dir_pattern(name, &BUILD_DIRS) {
            Some(SuggestionCategory::BuildArtifacts)
        } else if matches_dir_pattern(name, &PACKAGE_DIRS) {
            Some(SuggestionCategory::PackageCaches)
        } else if matches_dir_pattern(name, &CACHE_DIRS) {
            Some(SuggestionCategory::SystemCaches)
        } else if matches_dir_pattern(name, &IDE_DIRS) || is_dsym(name) {
            Some(SuggestionCategory::IdeArtifacts)
        } else {
            None
        }
    } else if has_extension(name, &TEMP_EXTENSIONS) {
        Some(SuggestionCategory::TempFiles)
    } else if has_extension(name, &INSTALLER_EXTENSIONS) {
        Some(SuggestionCategory::OldInstallers)
    } else {
        None
    }
}

/// Adds the items in `node`, each to the list of its category. A match is one
/// item: what is in it is not searched, so that nothing counts twice.
fn walk_for_suggestions(node: &FileNode, at: &NodePath, found: &mut Vec<Vec<SuggestionItem>>)
    requires
        old(found)@.len() == 6,
    ensures
        final(found)@.len() == 6,
        forall|cat: SuggestionCategory|
            item_views(final(found)@[position(cat)]@) == item_views(
                old(found)@[position(cat)]@,
            ) + #[trigger] items(node@, at.place(), cat),
    decreases node@,
{
    let ghost start = *found;
    match classify(node) {
        Some(kind) => {
            let index: usize = index_of(kind);
            let item = SuggestionItem { path: at.clone(), size: node.size() };
            let ghost before = found@[index as int]@;
            found[index].push(item);
            proof {
                assert forall|cat: SuggestionCategory|
                    item_views(found@[position(cat)]@) == item_views(start@[position(cat)]@)
                        + #[trigger] items(node@, at.place(), cat) by {
                    if cat == kind {
                        assert(item_views(before.push(item)) =~= item_views(before).push(
                            (at.place(), node@.size),
                        ));
                        assert(item_views(found@[position(cat)]@) =~= item_views(
                            start@[position(cat)]@,
                        ) + seq![(at.place(), node@.size)]);
                    } else {
                        assert(found@[position(cat)] == start@[position(cat)]);
                        assert(item_views(found@[position(cat)]@) =~= item_views(
                            start@[position(cat)]@,
                        ) + Seq::<Found>::empty());
                    }
                }
            }
        },
        None => {
            let children = node.children();
            let ghost kids = node@.kids;
            if node.is_dir() {
                let mut i: usize = 0;
                proof {
                    assert forall|cat: SuggestionCategory|
                        item_views(found@[position(cat)]@) == item_views(start@[position(cat)]@)
                            + #[trigger] items_among(kids, 0, at.place(), cat) by {
                        assert(item_views(found@[position(cat)]@) =~= item_views(
                            start@[position(cat)]@,
                        ) + Seq::<Found>::empty());
                    }
                }
                while i < children.len()
                    invariant
                        i <= children@.len(),
                        kids == tree::trees(children@),
                        kids == node@.kids,
                        found@.len() == 6,
                        forall|cat: SuggestionCategory|
                            item_views(found@[position(cat)]@) == item_views(
                                start@[position(cat)]@,
                            ) + #[trigger] items_among(kids, i as int, at.place(), cat),
                    decreases children@.len() - i,
                {
                    let ghost before = *found;
                    assert(children@[i as int]@ == kids[i as int]);
                    let below = at.join(children[i].name());
                    walk_for_suggestions(&children[i], &below, found);
                    proof {
                        assert forall|cat: SuggestionCategory|
                            item_views(found@[position(cat)]@) == item_views(
                                start@[position(cat)]@,
                            ) + #[trigger] items_among(kids, i + 1, at.place(), cat) by {
                            let more = items(kids[i as int], below.place(), cat);
                            let sofar = items_among(kids, i as int, at.place(), cat);
                            assert(item_views(before@[position(cat)]@) == item_views(
                                start@[position(cat)]@,
                            ) + sofar);
                            assert(item_views(found@[position(cat)]@) =~= item_views(
                                start@[position(cat)]@,
                            ) + (sofar + more));
                        }
                    }
                    i += 1;
                }
                proof {
                    assert forall|cat: SuggestionCategory|
                        item_views(found@[position(cat)]@) == item_views(start@[position(cat)]@)
                            + #[trigger] items(node@, at.place(), cat) by {
                        assert(items(node@, at.place(), cat) == items_among(kids, i as int, at.place(), cat));
                    }
                }
            } else {
                proof {
                    assert forall|cat: SuggestionCategory|
                        item_views(found@[position(cat)]@) == item_views(start@[position(cat)]@)
                            + #[trigger] items(node@, at.place(), cat) by {
                        assert(item_views(found@[position(cat)]@) =~= item_views(
                            start@[position(cat)]@,
                        ) + Seq::<Found>::empty());
                    }
                }
            }
        },
    }
}

proof fn lemma_bytes_prefix(found: Seq<Found>, n: int)
    requires
        0 <= n <= found.len(),
    ensures
        bytes_of(found.take(n)) <= bytes_of(found),
    decreases found.len() - n,
{
    if n < found.len() {
        assert(found.take(n + 1).drop_last() =~= found.take(n));
        lemma_bytes_prefix(found, n + 1);
    } else {
        assert(found.take(n) =~= found);
    }
}

fn sum_items(list: &Vec<SuggestionItem>) -> (total: u64)
    requires
        bytes_of(item_views(list@)) <= u64::MAX,
    ensures
        total == bytes_of(item_views(list@)),
{
    let ghost found = item_views(list@);
    let mut total: u64 = 0;
    let mut i: usize = 0;
    assert(found.take(0) =~= Seq::empty());
    while i < list.len()
        invariant
            i <= list@.len(),
            found == item_views(list@),
            bytes_of(found) <= u64::MAX,
            total == bytes_of(found.take(i as int)),
        decreases list@.len() - i,
    {
        proof {
            assert(found.take(i + 1).drop_last() =~= found.take(i as int));
            assert(found.take(i + 1).last() == found[i as int]);
            lemma_bytes_prefix(found, i + 1);
        }
        total += list[i].size;
        i += 1;
    }
    assert(found.take(i as int) =~= found);
    total
}

/// The bytes of the items of the first `n` categories.
spec fn reclaimable_first(tree: Tree, at: Place, n: int) -> nat
    decreases n,
{
    if n <= 0 {
        0
    } else {
        reclaimable_first(tree, at, n - 1) + bytes_of(
            items(tree, at, SUGGESTION_CATEGORIES@[n - 1]),
        )
    }
}

proof fn lemma_reclaimable_first(tree: Tree, at: Place, n: int)
    requires
        0 <= n <= 6,
    ensures
        reclaimable_first(tree, at, n) <= reclaimable(tree, at),
        reclaimable_first(tree, at, 6) == reclaimable(tree, at),
{
    reveal_with_fuel(reclaimable_first, 7);
}

/// Walk the scanned tree and detect reclaimable items.
pub fn analyze(tree: &FileNode) -> (report: SuggestionReport)
    requires
        reclaimable(tree@, path::place(tree@.name)) <= u64::MAX,
    ensures
        group_views(report.groups@) == report_groups(tree@),
        report.total_reclaimable == reclaimable(tree@, path::place(tree@.name)),
        forall|i: int|
            0 <= i < report.groups@.len() ==> !(#[trigger] report.groups@[i]).expanded,
{
    let at = NodePath::new(tree.name());
    let mut found: Vec<Vec<SuggestionItem>> = Vec::new();
    let mut k: usize = 0;
    while k < 6
        invariant
            k <= 6,
            found@.len() == k,
            forall|i: int| 0 <= i < k ==> (#[trigger] found@[i])@.len() == 0,
        decreases 6 - k,
    {
        found.push(Vec::new());
        k += 1;
    }
    let ghost empty = *&found;
    walk_for_suggestions(tree, &at, &mut found);
    proof {
        assert forall|cat: SuggestionCategory|
            item_views(found@[position(cat)]@) == #[trigger] items(tree@, at.place(), cat) by {
            assert(empty@[position(cat)]@.len() == 0);
            assert(item_views(empty@[position(cat)]@) =~= Seq::empty());
            assert(Seq::<Found>::empty() + items(tree@, at.place(), cat) =~= items(tree@, at.place(), cat));
        }
    }
    let mut groups: Vec<SuggestionGroup> = Vec::new();
    let mut keys: Vec<u64> = Vec::new();
    let mut total: u64 = 0;
    let mut i: usize = 0;
    assert(group_views(groups@) =~= Seq::empty());
    assert(keys@ =~= group_bytes(group_views(groups@)));
    while i < 6
        invariant
            i <= 6,
            found@.len() == 6,
            at.place() == path::place(tree@.name),
            reclaimable(tree@, at.place()) <= u64::MAX,
            forall|k: int|
                i <= k < 6 ==> item_views((#[trigger] found@[k])@) == items(
                    tree@,
                    at.place(),
                    SUGGESTION_CATEGORIES@[k],
                ),
            group_views(groups@) == groups_found(tree@, i as int),
            keys@ == group_bytes(group_views(groups@)),
            total == reclaimable_first(tree@, at.place(), i as int),
            forall|k: int| 0 <= k < groups@.len() ==> !(#[trigger] groups@[k]).expanded,
        decreases 6 - i,
    {
        let category = SUGGESTION_CATEGORIES[i];
        let mut list: Vec<SuggestionItem> = Vec::new();
        std::mem::swap(&mut list, &mut found[i]);
        proof {
            lemma_reclaimable_first(tree@, at.place(), i + 1);
            assert(item_views(list@) == items(tree@, at.place(), category));
        }
        if list.len() > 0 {
            let total_size: u64 = sum_items(&list);
            let ghost before = group_views(groups@);
            let group = SuggestionGroup { category, items: list, total_size, expanded: false };
            groups.push(group);
            keys.push(total_size);
            total += total_size;
            proof {
                assert(group_views(groups@) =~= before.push(
                    (category, item_views(group.items@), total_size),
                ));
                assert(keys@ =~= group_bytes(group_views(groups@)));
            }
        } else {
            assert(item_views(list@) =~= Seq::empty());
        }
        i += 1;
    }
    proof {
        lemma_reclaimable_first(tree@, at.place(), 6);
    }
    let order = rank(&keys);
    let ghost unsorted = groups@;
    let groups = pick(groups, &order);
    proof {
        assert(group_views(groups@) =~= order::picked(group_views(unsorted), order@));
        assert forall|k: int| 0 <= k < groups@.len() implies !(#[trigger] groups@[k]).expanded by {
            assert(groups@[k] == unsorted[order@[k] as int]);
            assert(order@[k] < keys@.len());
        }
    }
    SuggestionReport { groups, total_reclaimable: total }
}

/// Whether every directory is at least as large as its entries together.
pub open spec fn sized(tree: Tree) -> bool
    decreases tree,
{
    (tree.dir ==> tree::total_size(tree.kids) <= tree.size) && forall|i: int|
        0 <= i < tree.kids.len() ==> sized(#[trigger] tree.kids[i])
}

proof fn lemma_bytes_add(a: Seq<Found>, b: Seq<Found>)
    ensures
        bytes_of(a + b) == bytes_of(a) + bytes_of(b),
    decreases b.len(),
{
    if b.len() == 0 {
        assert(a + b =~= a);
    } else {
        assert((a + b).drop_last() =~= a + b.drop_last());
        lemma_bytes_add(a, b.drop_last());
    }
}

/// The bytes of the items of all categories in the first `n` entries.
spec fn reclaimable_among(kids: Seq<Tree>, n: int, at: Place) -> nat {
    bytes_of(items_among(kids, n, at, SuggestionCategory::BuildArtifacts)) + bytes_of(
        items_among(kids, n, at, SuggestionCategory::PackageCaches),
    ) + bytes_of(items_among(kids, n, at, SuggestionCategory::SystemCaches)) + bytes_of(
        items_among(kids, n, at, SuggestionCategory::IdeArtifacts),
    ) + bytes_of(items_among(kids, n, at, SuggestionCategory::TempFiles)) + bytes_of(
        items_among(kids, n, at, SuggestionCategory::OldInstallers),
    )
}

proof fn lemma_reclaimable_step(kids: Seq<Tree>, n: int, at: Place)
    requires
        0 <= n < kids.len(),
    ensures
        reclaimable_among(kids, n + 1, at) == reclaimable_among(kids, n, at) + reclaimable(
            kids[n],
            path::join_place(at, kids[n].name),
        ),
{
    let below = path::join_place(at, kids[n].name);
    assert forall|cat: SuggestionCategory|
        bytes_of(#[trigger] items_among(kids, n + 1, at, cat)) == bytes_of(
            items_among(kids, n, at, cat),
        ) + bytes_of(items(kids[n], below, cat)) by {
        lemma_bytes_add(items_among(kids, n, at, cat), items(kids[n], below, cat));
    }
    assert(bytes_of(items_among(kids, n + 1, at, SuggestionCategory::BuildArtifacts)) >= 0);
}

proof fn lemma_reclaimable_among(kids: Seq<Tree>, n: int, at: Place)
    requires
        0 <= n <= kids.len(),
        forall|i: int| 0 <= i < kids.len() ==> sized(#[trigger] kids[i]),
    ensures
        reclaimable_among(kids, n, at) <= tree::total_size(kids.take(n)),
    decreases kids, n,
{
    if n > 0 {
        lemma_reclaimable_among(kids, n - 1, at);
        lemma_reclaimable_step(kids, n - 1, at);
        lemma_nothing_counts_twice(kids[n - 1], path::join_place(at, kids[n - 1].name));
        assert(kids.take(n).drop_last() =~= kids.take(n - 1));
    }
}

/// Nothing counts twice: in a tree whose directories are at least as large as
/// their entries together, the suggestions claim no more than the tree has.
pub proof fn lemma_nothing_counts_twice(tree: Tree, at: Place)
    requires
        sized(tree),
    ensures
        reclaimable(tree, at) <= tree.size,
    decreases tree, 0int,
{
    reveal_with_fuel(bytes_of, 2);
    match kind_of(tree) {
        Some(kind) => {
            assert(seq![(at, tree.size)].drop_last() =~= Seq::<Found>::empty());
        },
        None => {
            if tree.dir {
                lemma_reclaimable_among(tree.kids, tree.kids.len() as int, at);
                assert(tree.kids.take(tree.kids.len() as int) =~= tree.kids);
            }
        },
    }
}

pub(crate) proof fn lemma_groups_short(tree: Tree, n: int)
    requires
        0 <= n,
    ensures
        groups_found(tree, n).len() <= n,
    decreases n,
{
    if n > 0 {
        lemma_groups_short(tree, n - 1);
    }
}

/// The groups with most bytes come first.
pub proof fn lemma_groups_largest_first(tree: Tree, i: int, j: int)
    requires
        0 <= i <= j < report_groups(tree).len(),
    ensures
        report_groups(tree)[i].2 >= report_groups(tree)[j].2,
{
    let keys = group_bytes(groups_found(tree, 6));
    lemma_groups_short(tree, 6);
    let order = order::lemma_order_exists(keys);
    if i < j {
        assert(order::comes_first(keys, order[i] as int, order[j] as int));
    }
    assert(order[i] < keys.len() && order[j] < keys.len());
}

/// Whether every item lies in the tree at `at`.
spec fn all_below(found: Seq<Found>, at: Seq<Seq<char>>) -> bool {
    forall|i: int| 0 <= i < found.len() ==> below((#[trigger] found[i]).0.parts, at)
}

/// Whether no item of either is or lies above one of the other.
spec fn apart(a: Seq<Found>, b: Seq<Found>) -> bool {
    forall|i: int, j: int|
        0 <= i < a.len() && 0 <= j < b.len() ==> !below(
            (#[trigger] a[i]).0.parts,
            (#[trigger] b[j]).0.parts,
        ) && !below(b[j].0.parts, a[i].0.parts)
}

/// Whether no item is or lies above another.
spec fn each_apart(found: Seq<Found>) -> bool {
    forall|i: int, j: int|
        0 <= i < found.len() && 0 <= j < found.len() && i != j ==> !below(
            (#[trigger] found[i]).0.parts,
            (#[trigger] found[j]).0.parts,
        )
}

proof fn lemma_below_more(path: Seq<Seq<char>>, at: Seq<Seq<char>>, name: Seq<char>)
    requires
        below(path, at.push(name)),
    ensures
        below(path, at),
        path.len() > at.len(),
        path[at.len() as int] == name,
{
    let longer = at.push(name);
    assert(path.take(at.len() as int) =~= longer.take(at.len() as int));
    assert(longer.take(at.len() as int) =~= at);
    assert(path[at.len() as int] == path.take(longer.len() as int)[at.len() as int]);
}

/// Paths below different entries of a directory are not below each other.
proof fn lemma_siblings_apart(
    a: Seq<Seq<char>>,
    b: Seq<Seq<char>>,
    at: Seq<Seq<char>>,
    x: Seq<char>,
    y: Seq<char>,
)
    requires
        below(a, at.push(x)),
        below(b, at.push(y)),
        x != y,
    ensures
        !below(a, b),
{
    lemma_below_more(a, at, x);
    lemma_below_more(b, at, y);
    if below(a, b) {
        assert(a.take(b.len() as int)[at.len() as int] == a[at.len() as int]);
    }
}

proof fn lemma_items_located(tree: Tree, at: Place, cat: SuggestionCategory)
    requires
        agreement::well_named(tree),
    ensures
        all_below(items(tree, at, cat), at.parts),
    decreases tree, 0nat,
{
    assert(at.parts.take(at.parts.len() as int) =~= at.parts);
    if kind_of(tree) is None && tree.dir {
        lemma_among_located(tree, tree.kids.len() as int, at, cat);
        let found = items_among(tree.kids, tree.kids.len() as int, at, cat);
        assert forall|i: int| 0 <= i < found.len() implies below(
            (#[trigger] found[i]).0.parts,
            at.parts,
        ) by {
            let k = choose|k: int|
                0 <= k < tree.kids.len() && below(
                    found[i].0.parts,
                    at.parts.push((#[trigger] tree.kids[k]).name),
                );
            lemma_below_more(found[i].0.parts, at.parts, tree.kids[k].name);
        }
    }
}

proof fn lemma_among_located(tree: Tree, n: int, at: Place, cat: SuggestionCategory)
    requires
        agreement::well_named(tree),
        0 <= n <= tree.kids.len(),
    ensures
        forall|i: int|
            0 <= i < items_among(tree.kids, n, at, cat).len() ==> exists|k: int|
                0 <= k < n && below(
                    (#[trigger] items_among(tree.kids, n, at, cat)[i]).0.parts,
                    at.parts.push((#[trigger] tree.kids[k]).name),
                ),
    decreases tree.kids, n as nat,
{
    if n > 0 {
        let kid = tree.kids[n - 1];
        lemma_among_located(tree, n - 1, at, cat);
        path::lemma_join_plain(at.parts, kid.name);
        assert(agreement::well_named(kid));
        lemma_items_located(kid, path::join_place(at, kid.name), cat);
        let before = items_among(tree.kids, n - 1, at, cat);
        let more = items(kid, path::join_place(at, kid.name), cat);
        let all = items_among(tree.kids, n, at, cat);
        assert forall|i: int| 0 <= i < all.len() implies exists|k: int|
            0 <= k < n && below(
                (#[trigger] all[i]).0.parts,
                at.parts.push((#[trigger] tree.kids[k]).name),
            ) by {
            if i < before.len() {
                assert(all[i] == before[i]);
                let k = choose|k: int|
                    0 <= k < n - 1 && below(
                        before[i].0.parts,
                        at.parts.push((#[trigger] tree.kids[k]).name),
                    );
                assert(below(all[i].0.parts, at.parts.push(tree.kids[k].name)));
            } else {
                assert(all[i] == more[i - before.len()]);
                assert(below(all[i].0.parts, at.parts.push(tree.kids[n - 1].name)));
            }
        }
    }
}

proof fn lemma_items_apart_in(tree: Tree, at: Place, a: SuggestionCategory, b: SuggestionCategory)
    requires
        agreement::well_named(tree),
    ensures
        each_apart(items(tree, at, a)),
        a != b ==> apart(items(tree, at, a), items(tree, at, b)),
    decreases tree, 0nat,
{
    if kind_of(tree) is None && tree.dir {
        lemma_among_apart(tree, tree.kids.len() as int, at, a, b);
    }
}

proof fn lemma_among_apart(
    tree: Tree,
    n: int,
    at: Place,
    a: SuggestionCategory,
    b: SuggestionCategory,
)
    requires
        agreement::well_named(tree),
        0 <= n <= tree.kids.len(),
    ensures
        each_apart(items_among(tree.kids, n, at, a)),
        a != b ==> apart(items_among(tree.kids, n, at, a), items_among(tree.kids, n, at, b)),
    decreases tree.kids, n as nat,
{
    if n > 0 {
        let kid = tree.kids[n - 1];
        let here = path::join_place(at, kid.name);
        path::lemma_join_plain(at.parts, kid.name);
        assert(agreement::well_named(kid));
        lemma_among_apart(tree, n - 1, at, a, b);
        lemma_items_apart_in(kid, here, a, b);
        lemma_next_apart(tree, n - 1, at, a, a);
        lemma_next_apart(tree, n - 1, at, a, b);
        lemma_next_apart(tree, n - 1, at, b, a);
        let (old_a, new_a) = (items_among(tree.kids, n - 1, at, a), items(kid, here, a));
        let (old_b, new_b) = (items_among(tree.kids, n - 1, at, b), items(kid, here, b));
        let (all_a, all_b) = (items_among(tree.kids, n, at, a), items_among(tree.kids, n, at, b));
        assert forall|i: int, j: int|
            0 <= i < all_a.len() && 0 <= j < all_a.len() && i != j implies !below(
            (#[trigger] all_a[i]).0.parts,
            (#[trigger] all_a[j]).0.parts,
        ) by {
            lemma_split(old_a, new_a, i);
            lemma_split(old_a, new_a, j);
        }
        if a != b {
            assert forall|i: int, j: int| 0 <= i < all_a.len() && 0 <= j < all_b.len() implies !below(
                (#[trigger] all_a[i]).0.parts,
                (#[trigger] all_b[j]).0.parts,
            ) && !below(all_b[j].0.parts, all_a[i].0.parts) by {
                lemma_split(old_a, new_a, i);
                lemma_split(old_b, new_b, j);
            }
        }
    }
}

proof fn lemma_split(a: Seq<Found>, b: Seq<Found>, i: int)
    requires
        0 <= i < a.len() + b.len(),
    ensures
        (a + b)[i] == if i < a.len() {
            a[i]
        } else {
            b[i - a.len()]
        },
{
}

/// What is found in the first entries and what is found in the next one lie apart.
proof fn lemma_next_apart(
    tree: Tree,
    n: int,
    at: Place,
    a: SuggestionCategory,
    b: SuggestionCategory,
)
    requires
        agreement::well_named(tree),
        0 <= n < tree.kids.len(),
    ensures
        apart(
            items_among(tree.kids, n, at, a),
            items(tree.kids[n], path::join_place(at, tree.kids[n].name), b),
        ),
{
    let kid = tree.kids[n];
    let here = path::join_place(at, kid.name);
    path::lemma_join_plain(at.parts, kid.name);
    assert(agreement::well_named(kid));
    lemma_among_located(tree, n, at, a);
    lemma_items_located(kid, here, b);
    let before = items_among(tree.kids, n, at, a);
    let more = items(kid, here, b);
    assert forall|i: int, j: int| 0 <= i < before.len() && 0 <= j < more.len() implies !below(
        (#[trigger] before[i]).0.parts,
        (#[trigger] more[j]).0.parts,
    ) && !below(more[j].0.parts, before[i].0.parts) by {
        let k = choose|k: int|
            0 <= k < n && below(
                before[i].0.parts,
                at.parts.push((#[trigger] tree.kids[k]).name),
            );
        assert(tree.kids[k].name != tree.kids[n].name);
        lemma_siblings_apart(
            before[i].0.parts,
            more[j].0.parts,
            at.parts,
            tree.kids[k].name,
            kid.name,
        );
        lemma_siblings_apart(
            more[j].0.parts,
            before[i].0.parts,
            at.parts,
            kid.name,
            tree.kids[k].name,
        );
    }
}

proof fn lemma_groups_items(tree: Tree, n: int)
    requires
        0 <= n <= 6,
    ensures
        forall|g: int|
            0 <= g < groups_found(tree, n).len() ==> {
                let group = #[trigger] groups_found(tree, n)[g];
                &&& group.1 == items(tree, path::place(tree.name), group.0)
                &&& position(group.0) < n
            },
        forall|g: int, h: int|
            0 <= g < h < groups_found(tree, n).len() ==> (#[trigger] groups_found(tree, n)[g]).0
                != (#[trigger] groups_found(tree, n)[h]).0,
    decreases n,
{
    if n > 0 {
        lemma_groups_items(tree, n - 1);
        let cat = SUGGESTION_CATEGORIES@[n - 1];
        assert(position(cat) == n - 1);
        let before = groups_found(tree, n - 1);
        let all = groups_found(tree, n);
        assert forall|g: int| 0 <= g < all.len() implies (#[trigger] all[g]).1 == items(
            tree,
            path::place(tree.name),
            all[g].0,
        ) && position(all[g].0) < n by {
            if g < before.len() {
                assert(all[g] == before[g]);
            }
        }
        assert forall|g: int, h: int| 0 <= g < h < all.len() implies (#[trigger] all[g]).0 != (
        #[trigger] all[h]).0 by {
            assert(all[g] == before[g]);
            if h < before.len() {
                assert(all[h] == before[h]);
            } else {
                assert(position(before[g].0) < n - 1);
            }
        }
    }
}

/// No suggestion is for a path that another is for, or that lies below one: in a tree
/// whose entries are well named, no item of the report is or lies below another.
pub proof fn lemma_items_apart(tree: Tree, g: int, i: int, h: int, j: int)
    requires
        agreement::well_named(tree),
        0 <= g < report_groups(tree).len(),
        0 <= i < report_groups(tree)[g].1.len(),
        0 <= h < report_groups(tree).len(),
        0 <= j < report_groups(tree)[h].1.len(),
        (g, i) != (h, j),
    ensures
        !below(report_groups(tree)[g].1[i].0.parts, report_groups(tree)[h].1[j].0.parts),
{
    let groups = groups_found(tree, 6);
    let keys = group_bytes(groups);
    lemma_groups_short(tree, 6);
    lemma_groups_items(tree, 6);
    let order = order::lemma_order_exists(keys);
    order::lemma_ranked_distinct(keys, order);
    let (a, b) = (groups[order[g] as int], groups[order[h] as int]);
    assert(order[g] < keys.len() && order[h] < keys.len());
    lemma_items_apart_in(tree, path::place(tree.name), a.0, b.0);
    if g != h {
        assert(order[g] != order[h]);
        if order[g] < order[h] {
            assert(a.0 != b.0);
        } else {
            assert(b.0 != a.0);
        }
    }
}

} // verus!
