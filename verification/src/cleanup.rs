//! What the cleanup suggestions are for.

use vstd::prelude::*;

use crate::agreement;
use crate::agreement::{below, well_named};
use crate::navigate;
use crate::order;
use crate::path;
use crate::path::Place;
use crate::suggestions;
use crate::suggestions::{analyze, Found, SuggestionCategory, SuggestionReport};
use crate::text;
use crate::tree::{FileNode, Tree};
use crate::whereabouts;

verus! {

/// Whether a name is one of the words, whatever the case of ASCII letters.
pub open spec fn spelled_as(name: Seq<char>, words: Seq<Seq<char>>) -> bool {
    exists|i: int| 0 <= i < words.len() && text::all_alike(name, #[trigger] words[i])
}

/// The directories that a build writes.
pub open spec fn build_words() -> Seq<Seq<char>> {
    seq![
        "target"@,
        "build"@,
        "dist"@,
        "__pycache__"@,
        ".gradle"@,
        "DerivedData"@,
        ".next"@,
        ".nuxt"@,
        "out"@,
        ".build"@,
        "cmake-build-debug"@,
        "cmake-build-release"@,
    ]
}

/// The directories that hold fetched packages.
pub open spec fn package_words() -> Seq<Seq<char>> {
    seq![
        "node_modules"@,
        ".venv"@,
        "venv"@,
        "vendor"@,
        "Pods"@,
        ".tox"@,
        "bower_components"@,
        "__pypackages__"@,
    ]
}

/// The directories that hold caches.
pub open spec fn cache_words() -> Seq<Seq<char>> {
    seq![
        "Caches"@,
        ".cache"@,
        "Cache"@,
        "CacheStorage"@,
        "GPUCache"@,
    ]
}

/// The directories that an editor writes.
pub open spec fn ide_words() -> Seq<Seq<char>> {
    seq![
        ".idea"@,
        ".vs"@,
        ".vscode"@,
        ".fleet"@,
    ]
}

/// The extensions of temporary files and logs.
pub open spec fn temp_words() -> Seq<Seq<char>> {
    seq![
        "tmp"@,
        "temp"@,
        "log"@,
        "bak"@,
        "swp"@,
        "swo"@,
    ]
}

/// The extensions of disk images and installers.
pub open spec fn installer_words() -> Seq<Seq<char>> {
    seq![
        "dmg"@,
        "pkg"@,
        "iso"@,
        "msi"@,
        "exe"@,
    ]
}

/// How long a word is, and its first two letters.
spec fn mark(word: Seq<char>) -> (nat, char, char) {
    (word.len(), text::lower(word[0]), text::lower(word[1]))
}

spec fn build_mark(m: (nat, char, char)) -> bool {
    ||| m == (3nat, 'o', 'u')
    ||| m == (4nat, 'd', 'i')
    ||| m == (5nat, '.', 'n')
    ||| m == (5nat, 'b', 'u')
    ||| m == (6nat, '.', 'b')
    ||| m == (6nat, 't', 'a')
    ||| m == (7nat, '.', 'g')
    ||| m == (11nat, '_', '_')
    ||| m == (11nat, 'd', 'e')
    ||| m == (17nat, 'c', 'm')
    ||| m == (19nat, 'c', 'm')
}

spec fn package_mark(m: (nat, char, char)) -> bool {
    ||| m == (4nat, '.', 't')
    ||| m == (4nat, 'p', 'o')
    ||| m == (4nat, 'v', 'e')
    ||| m == (5nat, '.', 'v')
    ||| m == (6nat, 'v', 'e')
    ||| m == (12nat, 'n', 'o')
    ||| m == (14nat, '_', '_')
    ||| m == (16nat, 'b', 'o')
}

spec fn cache_mark(m: (nat, char, char)) -> bool {
    ||| m == (5nat, 'c', 'a')
    ||| m == (6nat, '.', 'c')
    ||| m == (6nat, 'c', 'a')
    ||| m == (8nat, 'g', 'p')
    ||| m == (12nat, 'c', 'a')
}

spec fn ide_mark(m: (nat, char, char)) -> bool {
    ||| m == (3nat, '.', 'v')
    ||| m == (5nat, '.', 'i')
    ||| m == (6nat, '.', 'f')
    ||| m == (7nat, '.', 'v')
}

spec fn temp_mark(m: (nat, char, char)) -> bool {
    ||| m == (3nat, 'b', 'a')
    ||| m == (3nat, 'l', 'o')
    ||| m == (3nat, 's', 'w')
    ||| m == (3nat, 't', 'm')
    ||| m == (4nat, 't', 'e')
}

spec fn installer_mark(m: (nat, char, char)) -> bool {
    ||| m == (3nat, 'd', 'm')
    ||| m == (3nat, 'e', 'x')
    ||| m == (3nat, 'i', 's')
    ||| m == (3nat, 'm', 's')
    ||| m == (3nat, 'p', 'k')
}

proof fn lemma_alike_mark(name: Seq<char>, word: Seq<char>)
    requires
        text::all_alike(name, word),
        word.len() >= 2,
    ensures
        mark(name) == mark(word),
        text::lower(name.last()) == text::lower(word.last()),
{
    text::lemma_alike(name, word);
    let (a, b) = (text::lowered(name), text::lowered(word));
    assert(a.len() == name.len() && b.len() == word.len());
    assert(a[0] == b[0] && a[1] == b[1] && a[a.len() - 1] == b[b.len() - 1]);
}

proof fn lemma_build_words(name: Seq<char>)
    ensures
        spelled_as(name, build_words()) == text::listed_lowered(name, suggestions::BUILD_DIRS@),
        spelled_as(name, build_words()) ==> build_mark(mark(name)),
        spelled_as(name, build_words()) ==> text::lower(name.last()) != 'm',
{
    let words = build_words();
    let list = suggestions::BUILD_DIRS@;
    assert(list.len() == words.len());
    assert(list[0]@ == words[0]);
    assert(build_mark(mark("target"@)) && "target"@.len() >= 2 && text::lower("target"@.last()) != 'm') by {
        reveal_strlit("target");
    }
    assert(list[1]@ == words[1]);
    assert(build_mark(mark("build"@)) && "build"@.len() >= 2 && text::lower("build"@.last()) != 'm') by {
        reveal_strlit("build");
    }
    assert(list[2]@ == words[2]);
    assert(build_mark(mark("dist"@)) && "dist"@.len() >= 2 && text::lower("dist"@.last()) != 'm') by {
        reveal_strlit("dist");
    }
    assert(list[3]@ == words[3]);
    assert(build_mark(mark("__pycache__"@)) && "__pycache__"@.len() >= 2 && text::lower("__pycache__"@.last()) != 'm') by {
        reveal_strlit("__pycache__");
    }
    assert(list[4]@ == words[4]);
    assert(build_mark(mark(".gradle"@)) && ".gradle"@.len() >= 2 && text::lower(".gradle"@.last()) != 'm') by {
        reveal_strlit(".gradle");
    }
    assert(list[5]@ == words[5]);
    assert(build_mark(mark("DerivedData"@)) && "DerivedData"@.len() >= 2 && text::lower("DerivedData"@.last()) != 'm') by {
        reveal_strlit("DerivedData");
    }
    assert(list[6]@ == words[6]);
    assert(build_mark(mark(".next"@)) && ".next"@.len() >= 2 && text::lower(".next"@.last()) != 'm') by {
        reveal_strlit(".next");
    }
    assert(list[7]@ == words[7]);
    assert(build_mark(mark(".nuxt"@)) && ".nuxt"@.len() >= 2 && text::lower(".nuxt"@.last()) != 'm') by {
        reveal_strlit(".nuxt");
    }
    assert(list[8]@ == words[8]);
    assert(build_mark(mark("out"@)) && "out"@.len() >= 2 && text::lower("out"@.last()) != 'm') by {
        reveal_strlit("out");
    }
    assert(list[9]@ == words[9]);
    assert(build_mark(mark(".build"@)) && ".build"@.len() >= 2 && text::lower(".build"@.last()) != 'm') by {
        reveal_strlit(".build");
    }
    assert(list[10]@ == words[10]);
    assert(build_mark(mark("cmake-build-debug"@)) && "cmake-build-debug"@.len() >= 2 && text::lower("cmake-build-debug"@.last()) != 'm') by {
        reveal_strlit("cmake-build-debug");
    }
    assert(list[11]@ == words[11]);
    assert(build_mark(mark("cmake-build-release"@)) && "cmake-build-release"@.len() >= 2 && text::lower("cmake-build-release"@.last()) != 'm') by {
        reveal_strlit("cmake-build-release");
    }
    assert forall|i: int| 0 <= i < words.len() implies list[i]@ == #[trigger] words[i]
        && words[i].len() >= 2 && build_mark(mark(words[i])) by {
    }
    if spelled_as(name, words) {
        let i = choose|i: int| 0 <= i < words.len() && text::all_alike(name, #[trigger] words[i]);
        lemma_alike_mark(name, words[i]);
        text::lemma_alike(name, words[i]);
        assert(text::lowered(list[i]@) == text::lowered(name));
    }
    if text::listed_lowered(name, list) {
        let i = choose|i: int|
            0 <= i < list.len() && text::lowered(#[trigger] list[i]@) == text::lowered(name);
        assert(words[i] == list[i]@);
        text::lemma_alike(name, words[i]);
    }
}

proof fn lemma_package_words(name: Seq<char>)
    ensures
        spelled_as(name, package_words()) == text::listed_lowered(name, suggestions::PACKAGE_DIRS@),
        spelled_as(name, package_words()) ==> package_mark(mark(name)),
        spelled_as(name, package_words()) ==> text::lower(name.last()) != 'm',
{
    let words = package_words();
    let list = suggestions::PACKAGE_DIRS@;
    assert(list.len() == words.len());
    assert(list[0]@ == words[0]);
    assert(package_mark(mark("node_modules"@)) && "node_modules"@.len() >= 2 && text::lower("node_modules"@.last()) != 'm') by {
        reveal_strlit("node_modules");
    }
    assert(list[1]@ == words[1]);
    assert(package_mark(mark(".venv"@)) && ".venv"@.len() >= 2 && text::lower(".venv"@.last()) != 'm') by {
        reveal_strlit(".venv");
    }
    assert(list[2]@ == words[2]);
    assert(package_mark(mark("venv"@)) && "venv"@.len() >= 2 && text::lower("venv"@.last()) != 'm') by {
        reveal_strlit("venv");
    }
    assert(list[3]@ == words[3]);
    assert(package_mark(mark("vendor"@)) && "vendor"@.len() >= 2 && text::lower("vendor"@.last()) != 'm') by {
        reveal_strlit("vendor");
    }
    assert(list[4]@ == words[4]);
    assert(package_mark(mark("Pods"@)) && "Pods"@.len() >= 2 && text::lower("Pods"@.last()) != 'm') by {
        reveal_strlit("Pods");
    }
    assert(list[5]@ == words[5]);
    assert(package_mark(mark(".tox"@)) && ".tox"@.len() >= 2 && text::lower(".tox"@.last()) != 'm') by {
        reveal_strlit(".tox");
    }
    assert(list[6]@ == words[6]);
    assert(package_mark(mark("bower_components"@)) && "bower_components"@.len() >= 2 && text::lower("bower_components"@.last()) != 'm') by {
        reveal_strlit("bower_components");
    }
    assert(list[7]@ == words[7]);
    assert(package_mark(mark("__pypackages__"@)) && "__pypackages__"@.len() >= 2 && text::lower("__pypackages__"@.last()) != 'm') by {
        reveal_strlit("__pypackages__");
    }
    assert forall|i: int| 0 <= i < words.len() implies list[i]@ == #[trigger] words[i]
        && words[i].len() >= 2 && package_mark(mark(words[i])) by {
    }
    if spelled_as(name, words) {
        let i = choose|i: int| 0 <= i < words.len() && text::all_alike(name, #[trigger] words[i]);
        lemma_alike_mark(name, words[i]);
        text::lemma_alike(name, words[i]);
        assert(text::lowered(list[i]@) == text::lowered(name));
    }
    if text::listed_lowered(name, list) {
        let i = choose|i: int|
            0 <= i < list.len() && text::lowered(#[trigger] list[i]@) == text::lowered(name);
        assert(words[i] == list[i]@);
        text::lemma_alike(name, words[i]);
    }
}

proof fn lemma_cache_words(name: Seq<char>)
    ensures
        spelled_as(name, cache_words()) == text::listed_lowered(name, suggestions::CACHE_DIRS@),
        spelled_as(name, cache_words()) ==> cache_mark(mark(name)),
        spelled_as(name, cache_words()) ==> text::lower(name.last()) != 'm',
{
    let words = cache_words();
    let list = suggestions::CACHE_DIRS@;
    assert(list.len() == words.len());
    assert(list[0]@ == words[0]);
    assert(cache_mark(mark("Caches"@)) && "Caches"@.len() >= 2 && text::lower("Caches"@.last()) != 'm') by {
        reveal_strlit("Caches");
    }
    assert(list[1]@ == words[1]);
    assert(cache_mark(mark(".cache"@)) && ".cache"@.len() >= 2 && text::lower(".cache"@.last()) != 'm') by {
        reveal_strlit(".cache");
    }
    assert(list[2]@ == words[2]);
    assert(cache_mark(mark("Cache"@)) && "Cache"@.len() >= 2 && text::lower("Cache"@.last()) != 'm') by {
        reveal_strlit("Cache");
    }
    assert(list[3]@ == words[3]);
    assert(cache_mark(mark("CacheStorage"@)) && "CacheStorage"@.len() >= 2 && text::lower("CacheStorage"@.last()) != 'm') by {
        reveal_strlit("CacheStorage");
    }
    assert(list[4]@ == words[4]);
    assert(cache_mark(mark("GPUCache"@)) && "GPUCache"@.len() >= 2 && text::lower("GPUCache"@.last()) != 'm') by {
        reveal_strlit("GPUCache");
    }
    assert forall|i: int| 0 <= i < words.len() implies list[i]@ == #[trigger] words[i]
        && words[i].len() >= 2 && cache_mark(mark(words[i])) by {
    }
    if spelled_as(name, words) {
        let i = choose|i: int| 0 <= i < words.len() && text::all_alike(name, #[trigger] words[i]);
        lemma_alike_mark(name, words[i]);
        text::lemma_alike(name, words[i]);
        assert(text::lowered(list[i]@) == text::lowered(name));
    }
    if text::listed_lowered(name, list) {
        let i = choose|i: int|
            0 <= i < list.len() && text::lowered(#[trigger] list[i]@) == text::lowered(name);
        assert(words[i] == list[i]@);
        text::lemma_alike(name, words[i]);
    }
}

proof fn lemma_ide_words(name: Seq<char>)
    ensures
        spelled_as(name, ide_words()) == text::listed_lowered(name, suggestions::IDE_DIRS@),
        spelled_as(name, ide_words()) ==> ide_mark(mark(name)),
{
    let words = ide_words();
    let list = suggestions::IDE_DIRS@;
    assert(list.len() == words.len());
    assert(list[0]@ == words[0]);
    assert(ide_mark(mark(".idea"@)) && ".idea"@.len() >= 2) by {
        reveal_strlit(".idea");
    }
    assert(list[1]@ == words[1]);
    assert(ide_mark(mark(".vs"@)) && ".vs"@.len() >= 2) by {
        reveal_strlit(".vs");
    }
    assert(list[2]@ == words[2]);
    assert(ide_mark(mark(".vscode"@)) && ".vscode"@.len() >= 2) by {
        reveal_strlit(".vscode");
    }
    assert(list[3]@ == words[3]);
    assert(ide_mark(mark(".fleet"@)) && ".fleet"@.len() >= 2) by {
        reveal_strlit(".fleet");
    }
    assert forall|i: int| 0 <= i < words.len() implies list[i]@ == #[trigger] words[i]
        && words[i].len() >= 2 && ide_mark(mark(words[i])) by {
    }
    if spelled_as(name, words) {
        let i = choose|i: int| 0 <= i < words.len() && text::all_alike(name, #[trigger] words[i]);
        lemma_alike_mark(name, words[i]);
        text::lemma_alike(name, words[i]);
        assert(text::lowered(list[i]@) == text::lowered(name));
    }
    if text::listed_lowered(name, list) {
        let i = choose|i: int|
            0 <= i < list.len() && text::lowered(#[trigger] list[i]@) == text::lowered(name);
        assert(words[i] == list[i]@);
        text::lemma_alike(name, words[i]);
    }
}

proof fn lemma_temp_words(name: Seq<char>)
    ensures
        spelled_as(name, temp_words()) == text::listed_lowered(name, suggestions::TEMP_EXTENSIONS@),
        spelled_as(name, temp_words()) ==> temp_mark(mark(name)),
{
    let words = temp_words();
    let list = suggestions::TEMP_EXTENSIONS@;
    assert(list.len() == words.len());
    assert(list[0]@ == words[0]);
    assert(temp_mark(mark("tmp"@)) && "tmp"@.len() >= 2) by {
        reveal_strlit("tmp");
    }
    assert(list[1]@ == words[1]);
    assert(temp_mark(mark("temp"@)) && "temp"@.len() >= 2) by {
        reveal_strlit("temp");
    }
    assert(list[2]@ == words[2]);
    assert(temp_mark(mark("log"@)) && "log"@.len() >= 2) by {
        reveal_strlit("log");
    }
    assert(list[3]@ == words[3]);
    assert(temp_mark(mark("bak"@)) && "bak"@.len() >= 2) by {
        reveal_strlit("bak");
    }
    assert(list[4]@ == words[4]);
    assert(temp_mark(mark("swp"@)) && "swp"@.len() >= 2) by {
        reveal_strlit("swp");
    }
    assert(list[5]@ == words[5]);
    assert(temp_mark(mark("swo"@)) && "swo"@.len() >= 2) by {
        reveal_strlit("swo");
    }
    assert forall|i: int| 0 <= i < words.len() implies list[i]@ == #[trigger] words[i]
        && words[i].len() >= 2 && temp_mark(mark(words[i])) by {
    }
    if spelled_as(name, words) {
        let i = choose|i: int| 0 <= i < words.len() && text::all_alike(name, #[trigger] words[i]);
        lemma_alike_mark(name, words[i]);
        text::lemma_alike(name, words[i]);
        assert(text::lowered(list[i]@) == text::lowered(name));
    }
    if text::listed_lowered(name, list) {
        let i = choose|i: int|
            0 <= i < list.len() && text::lowered(#[trigger] list[i]@) == text::lowered(name);
        assert(words[i] == list[i]@);
        text::lemma_alike(name, words[i]);
    }
}

proof fn lemma_installer_words(name: Seq<char>)
    ensures
        spelled_as(name, installer_words()) == text::listed_lowered(name, suggestions::INSTALLER_EXTENSIONS@),
        spelled_as(name, installer_words()) ==> installer_mark(mark(name)),
{
    let words = installer_words();
    let list = suggestions::INSTALLER_EXTENSIONS@;
    assert(list.len() == words.len());
    assert(list[0]@ == words[0]);
    assert(installer_mark(mark("dmg"@)) && "dmg"@.len() >= 2) by {
        reveal_strlit("dmg");
    }
    assert(list[1]@ == words[1]);
    assert(installer_mark(mark("pkg"@)) && "pkg"@.len() >= 2) by {
        reveal_strlit("pkg");
    }
    assert(list[2]@ == words[2]);
    assert(installer_mark(mark("iso"@)) && "iso"@.len() >= 2) by {
        reveal_strlit("iso");
    }
    assert(list[3]@ == words[3]);
    assert(installer_mark(mark("msi"@)) && "msi"@.len() >= 2) by {
        reveal_strlit("msi");
    }
    assert(list[4]@ == words[4]);
    assert(installer_mark(mark("exe"@)) && "exe"@.len() >= 2) by {
        reveal_strlit("exe");
    }
    assert forall|i: int| 0 <= i < words.len() implies list[i]@ == #[trigger] words[i]
        && words[i].len() >= 2 && installer_mark(mark(words[i])) by {
    }
    if spelled_as(name, words) {
        let i = choose|i: int| 0 <= i < words.len() && text::all_alike(name, #[trigger] words[i]);
        lemma_alike_mark(name, words[i]);
        text::lemma_alike(name, words[i]);
        assert(text::lowered(list[i]@) == text::lowered(name));
    }
    if text::listed_lowered(name, list) {
        let i = choose|i: int|
            0 <= i < list.len() && text::lowered(#[trigger] list[i]@) == text::lowered(name);
        assert(words[i] == list[i]@);
        text::lemma_alike(name, words[i]);
    }
}

/// Whether a node is one that a category is for. Directories go by their names, files by
/// what follows the last dot of theirs. Empty nodes are for none.
pub open spec fn wanted(cat: SuggestionCategory, node: Tree) -> bool {
    &&& node.size > 0
    &&& match cat {
        SuggestionCategory::BuildArtifacts => node.dir && spelled_as(node.name, build_words()),
        SuggestionCategory::PackageCaches => node.dir && spelled_as(node.name, package_words()),
        SuggestionCategory::SystemCaches => node.dir && spelled_as(node.name, cache_words()),
        SuggestionCategory::IdeArtifacts => node.dir && (spelled_as(node.name, ide_words())
            || exists|stem: Seq<char>| node.name == #[trigger] (stem + ".dSYM"@)),
        SuggestionCategory::TempFiles => !node.dir && spelled_as(
            text::extension(node.name),
            temp_words(),
        ),
        SuggestionCategory::OldInstallers => !node.dir && spelled_as(
            text::extension(node.name),
            installer_words(),
        ),
    }
}

/// A node is sorted into the category that is for it, and into no other; no node is one
/// that two categories are for.
pub proof fn lemma_kind(node: Tree, cat: SuggestionCategory)
    ensures
        suggestions::kind_of(node) == Some(cat) <==> wanted(cat, node),
{
    let name = node.name;
    lemma_build_words(name);
    lemma_package_words(name);
    lemma_cache_words(name);
    lemma_ide_words(name);
    lemma_temp_words(text::extension(name));
    lemma_installer_words(text::extension(name));
    let tail = ".dSYM"@;
    reveal_strlit(".dSYM");
    assert(text::has_suffix(name, tail) <==> exists|stem: Seq<char>|
        name == #[trigger] (stem + tail)) by {
        if text::has_suffix(name, tail) {
            let stem = name.take(name.len() - tail.len());
            assert(name =~= stem + tail);
        }
        if exists|stem: Seq<char>| name == #[trigger] (stem + tail) {
            let stem = choose|stem: Seq<char>| name == #[trigger] (stem + tail);
            assert(name.skip(name.len() - tail.len()) =~= tail);
        }
    }
    if text::has_suffix(name, tail) {
        assert(name.last() == name.skip(name.len() - tail.len())[4]);
        assert(text::lower(name.last()) == 'm');
    }
}

/// What a category says of itself: the words in the report, and whether what it is for
/// can go unseen.
pub proof fn lemma_titles(cat: SuggestionCategory)
    ensures
        cat.title() == match cat {
            SuggestionCategory::BuildArtifacts => "Build Artifacts"@,
            SuggestionCategory::PackageCaches => "Package Caches"@,
            SuggestionCategory::SystemCaches => "System Caches"@,
            SuggestionCategory::IdeArtifacts => "IDE Artifacts"@,
            SuggestionCategory::TempFiles => "Temp & Log Files"@,
            SuggestionCategory::OldInstallers => "Old Installers"@,
        },
        cat.risk().title() == if cat is BuildArtifacts || cat is PackageCaches
            || cat is TempFiles {
            "Safe to delete"@
        } else {
            "Review first"@
        },
{
}

/// Whether items hold one for a path, with a size.
pub open spec fn has_item(found: Seq<Found>, path: Seq<Seq<char>>, size: u64) -> bool {
    exists|i: int|
        0 <= i < found.len() && (#[trigger] found[i]).0.parts == path && found[i].1 == size
}

/// Whether everything above a path, from `at` on, is a directory that no category is for.
pub open spec fn exposed(tree: Tree, at: Seq<Seq<char>>, path: Seq<Seq<char>>) -> bool {
    forall|above: Seq<Seq<char>>|
        below(above, at) && below(path, above) && above != path ==> {
            let dir = #[trigger] navigate::lookup(tree, at, above);
            &&& dir is Some
            &&& dir->0.dir
            &&& forall|cat: SuggestionCategory| !#[trigger] wanted(cat, dir->0)
        }
}

/// Whether the node at a path is a topmost one that a category is for.
pub open spec fn is_item(
    tree: Tree,
    at: Seq<Seq<char>>,
    cat: SuggestionCategory,
    path: Seq<Seq<char>>,
    size: u64,
) -> bool {
    let node = navigate::lookup(tree, at, path);
    &&& node is Some
    &&& node->0.size == size
    &&& wanted(cat, node->0)
    &&& exposed(tree, at, path)
}

proof fn lemma_unwanted(node: Tree)
    ensures
        suggestions::kind_of(node) is None <==> forall|cat: SuggestionCategory|
            !#[trigger] wanted(cat, node),
{
    assert forall|cat: SuggestionCategory| #[trigger]
        wanted(cat, node) <==> suggestions::kind_of(node) == Some(cat) by {
        lemma_kind(node, cat);
    }
    if suggestions::kind_of(node) is Some {
        assert(wanted(suggestions::kind_of(node)->0, node));
    }
}

proof fn lemma_found_below(tree: Tree, at: Seq<Seq<char>>, path: Seq<Seq<char>>)
    requires
        navigate::lookup(tree, at, path) is Some,
    ensures
        below(path, at),
{
    assert(at.take(at.len() as int) =~= at);
}

/// An item of an entry is one of the directory, and the other way round, where the
/// directory is none itself.
proof fn lemma_item_in_entry(
    tree: Tree,
    at: Seq<Seq<char>>,
    cat: SuggestionCategory,
    path: Seq<Seq<char>>,
    size: u64,
    k: int,
)
    requires
        well_named(tree),
        tree.dir,
        suggestions::kind_of(tree) is None,
        0 <= k < tree.kids.len(),
        below(path, at.push(tree.kids[k].name)),
    ensures
        is_item(tree, at, cat, path, size) == is_item(
            tree.kids[k],
            at.push(tree.kids[k].name),
            cat,
            path,
            size,
        ),
{
    let kid = tree.kids[k];
    let here = at.push(kid.name);
    agreement::lemma_well_named(tree);
    lemma_unwanted(tree);
    whereabouts::lemma_below_next(path, at, kid.name);
    whereabouts::lemma_lookup_step(tree, at, path, k);
    assert forall|above: Seq<Seq<char>>|
        below(above, at) && below(path, above) && above != at implies below(above, here)
        && #[trigger] navigate::lookup(tree, at, above) == navigate::lookup(
        kid,
        here,
        above,
    ) by {
        assert(above.len() > at.len()) by {
            if above.len() == at.len() {
                assert(above.take(at.len() as int) =~= above);
            }
        }
        assert(above.take(here.len() as int) =~= path.take(here.len() as int));
        whereabouts::lemma_below_next(above, at, kid.name);
        whereabouts::lemma_lookup_step(tree, at, above, k);
    }
    assert forall|above: Seq<Seq<char>>|
        below(above, here) && below(path, above) implies #[trigger] navigate::lookup(
        kid,
        here,
        above,
    ) == navigate::lookup(tree, at, above) && below(above, at) && above != at by {
        whereabouts::lemma_below_next(above, at, kid.name);
        whereabouts::lemma_lookup_step(tree, at, above, k);
    }
    assert(navigate::lookup(tree, at, at) == Some(tree));
}

proof fn lemma_items(
    tree: Tree,
    at: Place,
    cat: SuggestionCategory,
    path: Seq<Seq<char>>,
    size: u64,
)
    requires
        well_named(tree),
    ensures
        has_item(suggestions::items(tree, at, cat), path, size) == is_item(
            tree,
            at.parts,
            cat,
            path,
            size,
        ),
    decreases tree, 0nat,
{
    let found = suggestions::items(tree, at, cat);
    lemma_kind(tree, cat);
    lemma_unwanted(tree);
    assert(at.parts.take(at.parts.len() as int) =~= at.parts);
    if is_item(tree, at.parts, cat, path, size) {
        lemma_found_below(tree, at.parts, path);
        if path != at.parts {
            assert(navigate::lookup(tree, at.parts, at.parts) == Some(tree));
            assert(below(at.parts, at.parts));
        }
    }
    match suggestions::kind_of(tree) {
        Some(kind) => {
            if kind == cat {
                assert(found[0] == (at, tree.size));
                if path == at.parts {
                    assert forall|above: Seq<Seq<char>>|
                        below(above, at.parts) && below(path, above) implies above == path by {
                        assert(path.take(above.len() as int) =~= path);
                    }
                }
            }
        },
        None => {
            if tree.dir {
                lemma_items_among(tree, tree.kids.len() as int, at, cat, path, size);
                if is_item(tree, at.parts, cat, path, size) {
                    let next = path::next_part(at.parts, path)->0;
                    let k = navigate::first_named(tree.kids, next, 0);
                    agreement::lemma_named(tree.kids, next, 0);
                    whereabouts::lemma_below_next(path, at.parts, next);
                    lemma_item_in_entry(tree, at.parts, cat, path, size, k);
                    assert(is_kid_item(tree, at.parts, cat, path, size, k));
                }
                if exists|k: int| #[trigger] is_kid_item(tree, at.parts, cat, path, size, k) {
                    let k = choose|k: int| #[trigger]
                        is_kid_item(tree, at.parts, cat, path, size, k);
                    lemma_found_below(tree.kids[k], at.parts.push(tree.kids[k].name), path);
                    lemma_item_in_entry(tree, at.parts, cat, path, size, k);
                }
            }
        },
    }
}

/// Whether a path is an item in the entry `k`.
spec fn is_kid_item(
    tree: Tree,
    at: Seq<Seq<char>>,
    cat: SuggestionCategory,
    path: Seq<Seq<char>>,
    size: u64,
    k: int,
) -> bool {
    0 <= k < tree.kids.len() && is_item(
        tree.kids[k],
        at.push(tree.kids[k].name),
        cat,
        path,
        size,
    )
}

proof fn lemma_items_among(
    tree: Tree,
    n: int,
    at: Place,
    cat: SuggestionCategory,
    path: Seq<Seq<char>>,
    size: u64,
)
    requires
        well_named(tree),
        0 <= n <= tree.kids.len(),
    ensures
        has_item(suggestions::items_among(tree.kids, n, at, cat), path, size) <==> exists|k: int|
            k < n && #[trigger] is_kid_item(tree, at.parts, cat, path, size, k),
    decreases tree.kids, n as nat,
{
    if n > 0 {
        let kid = tree.kids[n - 1];
        let here = path::join_place(at, kid.name);
        path::lemma_join_plain(at.parts, kid.name);
        assert(well_named(kid));
        lemma_items_among(tree, n - 1, at, cat, path, size);
        lemma_items(kid, here, cat, path, size);
        let before = suggestions::items_among(tree.kids, n - 1, at, cat);
        let more = suggestions::items(kid, here, cat);
        lemma_either(before, more, path, size);
        if is_item(kid, here.parts, cat, path, size) {
            assert(is_kid_item(tree, at.parts, cat, path, size, n - 1));
        }
        if exists|k: int| k < n && #[trigger] is_kid_item(tree, at.parts, cat, path, size, k) {
            let k = choose|k: int|
                k < n && #[trigger] is_kid_item(tree, at.parts, cat, path, size, k);
            if k < n - 1 {
                assert(is_kid_item(tree, at.parts, cat, path, size, k));
            }
        }
    }
}

proof fn lemma_either(a: Seq<Found>, b: Seq<Found>, path: Seq<Seq<char>>, size: u64)
    ensures
        has_item(a + b, path, size) == (has_item(a, path, size) || has_item(b, path, size)),
{
    let all = a + b;
    if has_item(a, path, size) {
        let i = choose|i: int|
            0 <= i < a.len() && (#[trigger] a[i]).0.parts == path && a[i].1 == size;
        assert(all[i] == a[i]);
    }
    if has_item(b, path, size) {
        let i = choose|i: int|
            0 <= i < b.len() && (#[trigger] b[i]).0.parts == path && b[i].1 == size;
        assert(all[a.len() + i] == b[i]);
    }
    if has_item(all, path, size) {
        let i = choose|i: int|
            0 <= i < all.len() && (#[trigger] all[i]).0.parts == path && all[i].1 == size;
        if i < a.len() {
            assert(a[i] == all[i]);
        } else {
            assert(b[i - a.len()] == all[i]);
        }
    }
}

/// Whether a report has an item in the group of a category.
pub open spec fn reported(
    groups: Seq<suggestions::Group>,
    cat: SuggestionCategory,
    path: Seq<Seq<char>>,
    size: u64,
) -> bool {
    exists|g: int|
        0 <= g < groups.len() && (#[trigger] groups[g]).0 == cat && has_item(
            groups[g].1,
            path,
            size,
        )
}

proof fn lemma_groups_hold(
    tree: Tree,
    n: int,
    cat: SuggestionCategory,
    path: Seq<Seq<char>>,
    size: u64,
)
    requires
        0 <= n <= 6,
    ensures
        reported(suggestions::groups_found(tree, n), cat, path, size) <==> {
            &&& has_item(suggestions::items(tree, path::place(tree.name), cat), path, size)
            &&& exists|k: int| 0 <= k < n && #[trigger] suggestions::SUGGESTION_CATEGORIES@[k] == cat
        },
    decreases n,
{
    if n > 0 {
        let all = suggestions::groups_found(tree, n);
        let before = suggestions::groups_found(tree, n - 1);
        let last = suggestions::SUGGESTION_CATEGORIES@[n - 1];
        let found = suggestions::items(tree, path::place(tree.name), last);
        lemma_groups_hold(tree, n - 1, cat, path, size);
        if reported(before, cat, path, size) {
            let g = choose|g: int|
                0 <= g < before.len() && (#[trigger] before[g]).0 == cat && has_item(
                    before[g].1,
                    path,
                    size,
                );
            assert(all[g] == before[g]);
        }
        if last == cat && has_item(found, path, size) {
            assert(all[all.len() - 1].1 == found);
        }
        if reported(all, cat, path, size) {
            let g = choose|g: int|
                0 <= g < all.len() && (#[trigger] all[g]).0 == cat && has_item(
                    all[g].1,
                    path,
                    size,
                );
            if g < before.len() {
                assert(before[g] == all[g]);
            } else {
                assert(suggestions::SUGGESTION_CATEGORIES@[n - 1] == cat);
            }
        }
    }
}

/// The report has, in the group of each category, exactly the topmost nodes that the
/// category is for, each with its size. None of them is in another group.
pub proof fn lemma_report(
    tree: Tree,
    cat: SuggestionCategory,
    path: Seq<Seq<char>>,
    size: u64,
)
    requires
        well_named(tree),
    ensures
        reported(suggestions::report_groups(tree), cat, path, size) <==> is_item(
            tree,
            path::parse_parts(tree.name),
            cat,
            path,
            size,
        ),
        forall|other: SuggestionCategory, s: u64|
            reported(suggestions::report_groups(tree), cat, path, size) && #[trigger] reported(
                suggestions::report_groups(tree),
                other,
                path,
                s,
            ) ==> other == cat && s == size,
{
    lemma_report_one(tree, cat, path, size);
    assert forall|other: SuggestionCategory, s: u64|
        reported(suggestions::report_groups(tree), cat, path, size) && #[trigger] reported(
            suggestions::report_groups(tree),
            other,
            path,
            s,
        ) implies other == cat && s == size by {
        lemma_report_one(tree, other, path, s);
        let node = navigate::lookup(tree, path::parse_parts(tree.name), path)->0;
        lemma_kind(node, cat);
        lemma_kind(node, other);
    }
}

proof fn lemma_report_one(
    tree: Tree,
    cat: SuggestionCategory,
    path: Seq<Seq<char>>,
    size: u64,
)
    requires
        well_named(tree),
    ensures
        reported(suggestions::report_groups(tree), cat, path, size) <==> is_item(
            tree,
            path::parse_parts(tree.name),
            cat,
            path,
            size,
        ),
{
    broadcast use vstd::seq_lib::group_to_multiset_ensures;

    let groups = suggestions::groups_found(tree, 6);
    let sorted = suggestions::report_groups(tree);
    let keys = suggestions::group_bytes(groups);
    suggestions::lemma_groups_short(tree, 6);
    let order = order::lemma_order_exists(keys);
    order::lemma_ranked_distinct(keys, order);
    order::lemma_picked_multiset(groups, order);
    assert(sorted.to_multiset() == groups.to_multiset());
    lemma_items(tree, path::place(tree.name), cat, path, size);
    lemma_groups_hold(tree, 6, cat, path, size);
    assert(suggestions::SUGGESTION_CATEGORIES@[suggestions::position(cat)] == cat);
    if reported(groups, cat, path, size) {
        let g = choose|g: int|
            0 <= g < groups.len() && (#[trigger] groups[g]).0 == cat && has_item(
                groups[g].1,
                path,
                size,
            );
        assert(groups.contains(groups[g]));
        assert(groups.to_multiset().count(groups[g]) > 0);
        assert(sorted.contains(groups[g]));
        let h = sorted.index_of(groups[g]);
        assert(sorted[h] == groups[g]);
    }
    if reported(sorted, cat, path, size) {
        let g = choose|g: int|
            0 <= g < sorted.len() && (#[trigger] sorted[g]).0 == cat && has_item(
                sorted[g].1,
                path,
                size,
            );
        assert(sorted.contains(sorted[g]));
        assert(sorted.to_multiset().count(sorted[g]) > 0);
        assert(groups.contains(sorted[g]));
        let h = groups.index_of(sorted[g]);
        assert(groups[h] == sorted[g]);
    }
}

/// What the analysis of a tree reports: in the group of each category exactly the topmost
/// nodes that the category is for. Each group has items, says how large they are together,
/// and the groups with most bytes come first; none is open.
pub proof fn lemma_analyzed(
    tree: FileNode,
    report: SuggestionReport,
    cat: SuggestionCategory,
    path: Seq<Seq<char>>,
    size: u64,
    g: int,
)
    requires
        call_ensures(analyze, (&tree,), report),
        suggestions::reclaimable(tree@, path::place(tree@.name)) <= u64::MAX,
        well_named(tree@),
    ensures
        ({
            let groups = suggestions::group_views(report.groups@);
            let found = suggestions::item_views(report.groups@[g].items@);
            &&& reported(groups, cat, path, size) <==> is_item(
                tree@,
                path::parse_parts(tree@.name),
                cat,
                path,
                size,
            )
            &&& 0 <= g < report.groups@.len() ==> {
                &&& found.len() > 0
                &&& report.groups@[g].total_size == suggestions::bytes_of(found)
                &&& !report.groups@[g].expanded
                &&& g + 1 < report.groups@.len() ==> report.groups@[g].total_size
                    >= report.groups@[g + 1].total_size
            }
        }),
{
    let groups = suggestions::group_views(report.groups@);
    lemma_report(tree@, cat, path, size);
    if 0 <= g < report.groups@.len() {
        lemma_group_sums(tree@, g);
        assert(groups[g] == (
            report.groups@[g].category,
            suggestions::item_views(report.groups@[g].items@),
            report.groups@[g].total_size,
        ));
        if g + 1 < report.groups@.len() {
            suggestions::lemma_groups_largest_first(tree@, g, g + 1);
            assert(groups[g + 1].2 == report.groups@[g + 1].total_size);
        }
    }
}

proof fn lemma_group_sums(tree: Tree, g: int)
    requires
        suggestions::reclaimable(tree, path::place(tree.name)) <= u64::MAX,
        0 <= g < suggestions::report_groups(tree).len(),
    ensures
        ({
            let group = suggestions::report_groups(tree)[g];
            &&& group.1.len() > 0
            &&& group.2 == suggestions::bytes_of(group.1)
        }),
{
    let groups = suggestions::groups_found(tree, 6);
    let keys = suggestions::group_bytes(groups);
    suggestions::lemma_groups_short(tree, 6);
    let order = order::lemma_order_exists(keys);
    assert(order[g] < keys.len());
    lemma_sums_found(tree, 6, order[g] as int);
}

proof fn lemma_sums_found(tree: Tree, n: int, g: int)
    requires
        suggestions::reclaimable(tree, path::place(tree.name)) <= u64::MAX,
        0 <= n <= 6,
        0 <= g < suggestions::groups_found(tree, n).len(),
    ensures
        ({
            let group = suggestions::groups_found(tree, n)[g];
            &&& group.1.len() > 0
            &&& group.2 == suggestions::bytes_of(group.1)
        }),
    decreases n,
{
    if n > 0 {
        let before = suggestions::groups_found(tree, n - 1);
        let cat = suggestions::SUGGESTION_CATEGORIES@[n - 1];
        let found = suggestions::items(tree, path::place(tree.name), cat);
        if g < before.len() {
            lemma_sums_found(tree, n - 1, g);
        } else {
            assert(suggestions::bytes_of(found) <= suggestions::reclaimable(
                tree,
                path::place(tree.name),
            ));
        }
    }
}

/// The bytes of items are those of each, added up.
pub proof fn lemma_bytes(found: Seq<Found>, item: Found)
    ensures
        suggestions::bytes_of(found.push(item)) == suggestions::bytes_of(found) + item.1,
        suggestions::bytes_of(Seq::empty()) == 0,
{
    assert(found.push(item).drop_last() =~= found);
}

/// The bytes of all groups together.
pub open spec fn groups_total(groups: Seq<suggestions::Group>) -> nat
    decreases groups.len(),
{
    if groups.len() == 0 {
        0
    } else {
        groups_total(groups.drop_last()) + groups.last().2 as nat
    }
}

proof fn lemma_total_without(groups: Seq<suggestions::Group>, i: int)
    requires
        0 <= i < groups.len(),
    ensures
        groups_total(groups) == groups_total(groups.remove(i)) + groups[i].2,
    decreases groups.len(),
{
    if i == groups.len() - 1 {
        assert(groups.remove(i) =~= groups.drop_last());
    } else {
        lemma_total_without(groups.drop_last(), i);
        assert(groups.remove(i).drop_last() =~= groups.drop_last().remove(i));
        assert(groups.remove(i).last() == groups.last());
    }
}

proof fn lemma_total_in_any_order(a: Seq<suggestions::Group>, b: Seq<suggestions::Group>)
    requires
        a.to_multiset() == b.to_multiset(),
    ensures
        groups_total(a) == groups_total(b),
    decreases a.len(),
{
    broadcast use vstd::seq_lib::group_to_multiset_ensures;
    broadcast use vstd::multiset::group_multiset_axioms;

    assert(a.len() == a.to_multiset().len());
    assert(b.len() == b.to_multiset().len());
    if a.len() > 0 {
        let last = a.last();
        assert(a.contains(last));
        assert(b.to_multiset().count(last) > 0);
        assert(b.contains(last));
        let i = b.index_of(last);
        assert(a.remove(a.len() - 1) =~= a.drop_last());
        assert(a.drop_last().to_multiset() =~= b.remove(i).to_multiset());
        lemma_total_in_any_order(a.drop_last(), b.remove(i));
        lemma_total_without(b, i);
    }
}

/// The bytes of the items of the first `n` categories.
spec fn first_bytes(tree: Tree, n: int) -> nat
    decreases n,
{
    if n <= 0 {
        0
    } else {
        first_bytes(tree, n - 1) + suggestions::bytes_of(
            suggestions::items(
                tree,
                path::place(tree.name),
                suggestions::SUGGESTION_CATEGORIES@[n - 1],
            ),
        )
    }
}

proof fn lemma_first_total(tree: Tree, n: int)
    requires
        suggestions::reclaimable(tree, path::place(tree.name)) <= u64::MAX,
        0 <= n <= 6,
    ensures
        groups_total(suggestions::groups_found(tree, n)) == first_bytes(tree, n),
    decreases n,
{
    if n > 0 {
        lemma_first_total(tree, n - 1);
        let before = suggestions::groups_found(tree, n - 1);
        let cat = suggestions::SUGGESTION_CATEGORIES@[n - 1];
        let found = suggestions::items(tree, path::place(tree.name), cat);
        assert(suggestions::bytes_of(found) <= suggestions::reclaimable(
            tree,
            path::place(tree.name),
        ));
        if found.len() == 0 {
            assert(suggestions::bytes_of(found) == 0);
        } else {
            let group = (cat, found, suggestions::bytes_of(found) as u64);
            assert(before.push(group).drop_last() =~= before);
        }
    }
}

/// What can be reclaimed is what the groups of the report take together.
pub proof fn lemma_reclaimable(tree: Tree)
    requires
        suggestions::reclaimable(tree, path::place(tree.name)) <= u64::MAX,
    ensures
        groups_total(suggestions::report_groups(tree)) == suggestions::reclaimable(
            tree,
            path::place(tree.name),
        ),
{
    let groups = suggestions::groups_found(tree, 6);
    let keys = suggestions::group_bytes(groups);
    suggestions::lemma_groups_short(tree, 6);
    let order = order::lemma_order_exists(keys);
    order::lemma_ranked_distinct(keys, order);
    order::lemma_picked_multiset(groups, order);
    lemma_total_in_any_order(suggestions::report_groups(tree), groups);
    lemma_first_total(tree, 6);
    reveal_with_fuel(first_bytes, 7);
}

/// A description begins with what the category is made of.
pub proof fn lemma_descriptions(cat: SuggestionCategory, text: &str)
    requires
        call_ensures(SuggestionCategory::description, (cat,), text),
    ensures
        cat is BuildArtifacts ==> text::has_prefix(text@, "Compiler output"@),
        cat is PackageCaches ==> text::has_prefix(text@, "Downloaded dependencies"@),
        cat is SystemCaches ==> text::has_prefix(text@, "Application and system caches"@),
        cat is IdeArtifacts ==> text::has_prefix(text@, "IDE indexes"@),
        cat is TempFiles ==> text::has_prefix(text@, "Temporary files"@),
        cat is OldInstallers ==> text::has_prefix(text@, "Disk images"@),
{
    reveal_strlit("Compiler output");
    reveal_strlit("Downloaded dependencies");
    reveal_strlit("IDE indexes");
    reveal_strlit("Temporary files");
    reveal_strlit("Disk images");
    reveal_strlit("Compiler output, build directories that can be regenerated");
    reveal_strlit("Downloaded dependencies that can be re-fetched");
    reveal_strlit("IDE indexes, settings caches, and debug symbols");
    reveal_strlit("Temporary files, logs, crash reports, and backups");
    reveal_strlit("Disk images and installer packages");
    let all = text@;
    match cat {
        SuggestionCategory::BuildArtifacts => assert(all.take("Compiler output"@.len() as int)
            =~= "Compiler output"@),
        SuggestionCategory::PackageCaches => assert(all.take(
            "Downloaded dependencies"@.len() as int,
        ) =~= "Downloaded dependencies"@),
        SuggestionCategory::SystemCaches => assert(all.take(all.len() as int) =~= all),
        SuggestionCategory::IdeArtifacts => assert(all.take("IDE indexes"@.len() as int)
            =~= "IDE indexes"@),
        SuggestionCategory::TempFiles => assert(all.take("Temporary files"@.len() as int)
            =~= "Temporary files"@),
        SuggestionCategory::OldInstallers => assert(all.take("Disk images"@.len() as int)
            =~= "Disk images"@),
    }
}

/// No two categories have the same symbol.
pub proof fn lemma_symbols(a: SuggestionCategory, b: SuggestionCategory, one: &str, other: &str)
    requires
        call_ensures(SuggestionCategory::icon, (a,), one),
        call_ensures(SuggestionCategory::icon, (b,), other),
        one@ == other@,
    ensures
        a == b,
{
    reveal_strlit("\u{1F3D7}");
    reveal_strlit("\u{1F4E6}");
    reveal_strlit("\u{1F5C4}");
    reveal_strlit("\u{1F4BB}");
    reveal_strlit("\u{1F5D1}");
    reveal_strlit("\u{1F4BF}");
    assert("\u{1F3D7}"@[0] == '\u{1F3D7}');
    assert("\u{1F4E6}"@[0] == '\u{1F4E6}');
    assert("\u{1F5C4}"@[0] == '\u{1F5C4}');
    assert("\u{1F4BB}"@[0] == '\u{1F4BB}');
    assert("\u{1F5D1}"@[0] == '\u{1F5D1}');
    assert("\u{1F4BF}"@[0] == '\u{1F4BF}');
    assert(one@[0] == other@[0]);
}

} // verus!
