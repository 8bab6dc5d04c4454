//! What different ways of asking the same thing agree on, in trees whose
//! entries have names of their own.

use vstd::prelude::*;

use crate::categories;
use crate::categories::FileCategory;
use crate::matching;
use crate::matching::Wanted;
use crate::navigate;
use crate::path;
use crate::path::Place;
use crate::session;
use crate::tree;
use crate::tree::Tree;
use crate::ui;
use crate::ui::{Row, Shown};

verus! {

/// Whether the entries of each directory have plain names, and no two of them
/// the same. Those of a file system do.
pub open spec fn well_named(tree: Tree) -> bool
    decreases tree,
{
    &&& forall|i: int| 0 <= i < tree.kids.len() ==> path::plain_name(#[trigger] tree.kids[i].name)
    &&& forall|i: int, j: int|
        0 <= i < j < tree.kids.len() ==> #[trigger] tree.kids[i].name
            != #[trigger] tree.kids[j].name
    &&& forall|i: int| 0 <= i < tree.kids.len() ==> well_named(#[trigger] tree.kids[i])
}

/// Whether the entries of each directory have plain names.
pub open spec fn plain_names(tree: Tree) -> bool
    decreases tree,
{
    &&& forall|i: int| 0 <= i < tree.kids.len() ==> path::plain_name(#[trigger] tree.kids[i].name)
    &&& forall|i: int| 0 <= i < tree.kids.len() ==> plain_names(#[trigger] tree.kids[i])
}

/// Whether no two entries of a directory have the same name.
pub open spec fn distinct_names(tree: Tree) -> bool
    decreases tree,
{
    &&& forall|i: int, j: int|
        0 <= i < j < tree.kids.len() ==> #[trigger] tree.kids[i].name
            != #[trigger] tree.kids[j].name
    &&& forall|i: int| 0 <= i < tree.kids.len() ==> distinct_names(#[trigger] tree.kids[i])
}

/// Entries are well named where their names are plain and distinct.
pub proof fn lemma_well_named(tree: Tree)
    ensures
        well_named(tree) == (plain_names(tree) && distinct_names(tree)),
    decreases tree,
{
    assert forall|i: int| 0 <= i < tree.kids.len() implies well_named(#[trigger] tree.kids[i])
        == (plain_names(tree.kids[i]) && distinct_names(tree.kids[i])) by {
        lemma_well_named(tree.kids[i]);
    }
    if well_named(tree) {
        assert(forall|i: int| 0 <= i < tree.kids.len() ==> well_named(#[trigger] tree.kids[i]));
    }
}

/// Whether `path` is `at` or lies below it.
pub open spec fn below(path: Seq<Seq<char>>, at: Seq<Seq<char>>) -> bool {
    at.len() <= path.len() && path.take(at.len() as int) == at
}

proof fn lemma_below_push(path: Seq<Seq<char>>, at: Seq<Seq<char>>, name: Seq<char>)
    requires
        below(path, at.push(name)),
    ensures
        below(path, at),
        path.len() > at.len(),
        path[at.len() as int] == name,
{
    let longer = at.push(name);
    assert(path.take(at.len() as int) =~= longer.take(at.len() as int));
    assert(longer.take(at.len() as int) =~= at);
    assert(path[at.len() as int] == path.take(longer.len() as int)[at.len() as int]);
}

proof fn lemma_marks_below(tree: Tree, at: Seq<Seq<char>>, wanted: Wanted, p: Seq<Seq<char>>)
    requires
        well_named(tree),
        matching::marks(tree, at, wanted, p),
    ensures
        below(p, at),
    decreases tree,
{
    if p == at {
        assert(p.take(at.len() as int) =~= at);
    } else {
        let i = choose|i: int|
            0 <= i < tree.kids.len() && matching::marks(
                #[trigger] tree.kids[i],
                path::join_parts(at, tree.kids[i].name),
                wanted,
                p,
            );
        path::lemma_join_plain(at, tree.kids[i].name);
        lemma_marks_below(tree.kids[i], at.push(tree.kids[i].name), wanted, p);
        lemma_below_push(p, at, tree.kids[i].name);
    }
}

proof fn lemma_marks_own(tree: Tree, at: Seq<Seq<char>>, wanted: Wanted)
    requires
        well_named(tree),
    ensures
        matching::marks(tree, at, wanted, at) == matching::holds_wanted(tree, wanted),
{
    if matching::marks(tree, at, wanted, at) && !matching::holds_wanted(tree, wanted) {
        let i = choose|i: int|
            0 <= i < tree.kids.len() && matching::marks(
                #[trigger] tree.kids[i],
                path::join_parts(at, tree.kids[i].name),
                wanted,
                at,
            );
        path::lemma_join_plain(at, tree.kids[i].name);
        lemma_marks_below(tree.kids[i], at.push(tree.kids[i].name), wanted, at);
    }
}

proof fn lemma_marks_kid(
    tree: Tree,
    at: Seq<Seq<char>>,
    wanted: Wanted,
    i: int,
    p: Seq<Seq<char>>,
)
    requires
        well_named(tree),
        0 <= i < tree.kids.len(),
        below(p, at.push(tree.kids[i].name)),
    ensures
        matching::marks(tree, at, wanted, p) == matching::marks(
            tree.kids[i],
            at.push(tree.kids[i].name),
            wanted,
            p,
        ),
{
    path::lemma_join_plain(at, tree.kids[i].name);
    lemma_below_push(p, at, tree.kids[i].name);
    if matching::marks(tree, at, wanted, p) {
        let j = choose|j: int|
            0 <= j < tree.kids.len() && matching::marks(
                #[trigger] tree.kids[j],
                path::join_parts(at, tree.kids[j].name),
                wanted,
                p,
            );
        path::lemma_join_plain(at, tree.kids[j].name);
        lemma_marks_below(tree.kids[j], at.push(tree.kids[j].name), wanted, p);
        lemma_below_push(p, at, tree.kids[j].name);
        assert(tree.kids[i].name == tree.kids[j].name);
        assert(i == j);
    }
    if matching::marks(tree.kids[i], at.push(tree.kids[i].name), wanted, p) {
        assert(matching::marks(
            tree.kids[i],
            path::join_parts(at, tree.kids[i].name),
            wanted,
            p,
        ));
    }
}

/// Whether a set has the paths of those nodes in a tree that hold what is
/// looked for.
spec fn agrees(tree: Tree, at: Seq<Seq<char>>, cache: Set<Seq<Seq<char>>>, wanted: Wanted) -> bool
    decreases tree,
{
    &&& cache.contains(at) == matching::holds_wanted(tree, wanted)
    &&& forall|i: int|
        0 <= i < tree.kids.len() ==> agrees(
            #[trigger] tree.kids[i],
            path::join_parts(at, tree.kids[i].name),
            cache,
            wanted,
        )
}

proof fn lemma_agrees(
    tree: Tree,
    at: Seq<Seq<char>>,
    root: Tree,
    top: Seq<Seq<char>>,
    wanted: Wanted,
)
    requires
        well_named(tree),
        top == path::parse_parts(root.name),
        forall|p: Seq<Seq<char>>|
            below(p, at) ==> #[trigger] matching::marks(root, top, wanted, p) == matching::marks(
                tree,
                at,
                wanted,
                p,
            ),
    ensures
        agrees(tree, at, matching::marked(root, wanted), wanted),
    decreases tree,
{
    let cache = matching::marked(root, wanted);
    assert(at.take(at.len() as int) =~= at);
    assert(below(at, at));
    assert(cache.contains(at) == matching::marks(root, top, wanted, at));
    lemma_marks_own(tree, at, wanted);
    assert forall|i: int| 0 <= i < tree.kids.len() implies agrees(
        #[trigger] tree.kids[i],
        path::join_parts(at, tree.kids[i].name),
        cache,
        wanted,
    ) by {
        let name = tree.kids[i].name;
        path::lemma_join_plain(at, name);
        assert forall|p: Seq<Seq<char>>| below(p, at.push(name)) implies #[trigger]
            matching::marks(root, top, wanted, p) == matching::marks(
            tree.kids[i],
            at.push(name),
            wanted,
            p,
        ) by {
            lemma_below_push(p, at, name);
            lemma_marks_kid(tree, at, wanted, i, p);
        }
        lemma_agrees(tree.kids[i], at.push(name), root, top, wanted);
    }
}

/// Whether two ways of showing a tree show the same of its nodes.
spec fn same_visible(tree: Tree, at: Seq<Seq<char>>, a: Shown, b: Shown) -> bool
    decreases tree,
{
    &&& ui::visible(tree, at, a) == ui::visible(tree, at, b)
    &&& forall|i: int|
        0 <= i < tree.kids.len() ==> same_visible(
            #[trigger] tree.kids[i],
            path::join_parts(at, tree.kids[i].name),
            a,
            b,
        )
}

/// Whether two ways of showing a tree differ in their caches only.
spec fn same_but_caches(a: Shown, b: Shown) -> bool {
    a.filter == b.filter && a.category == b.category && a.show_hidden == b.show_hidden && a.groups
        == b.groups
}

proof fn lemma_rows_same(
    tree: Tree,
    at: Place,
    depth: int,
    parent_size: u64,
    a: Shown,
    b: Shown,
)
    requires
        same_visible(tree, at.parts, a, b),
        same_but_caches(a, b),
    ensures
        ui::rows(tree, at, depth, parent_size, a) == ui::rows(tree, at, depth, parent_size, b),
    decreases tree, 0nat,
{
    let n = tree.kids.len() as int;
    let size = tree::total_size(ui::loose_files(tree.kids, a.show_hidden));
    let place = ui::group_place(tree.kids, size, 0);
    lemma_entries_same(tree.kids, 0, place, ui::Entries::Folders, at, depth + 1, tree.size, a, b);
    lemma_entries_same(
        tree.kids,
        0,
        n,
        ui::Entries::LooseFiles,
        at,
        depth + 2,
        size as u64,
        a,
        b,
    );
    lemma_entries_same(tree.kids, place, n, ui::Entries::Folders, at, depth + 1, tree.size, a, b);
    lemma_entries_same(tree.kids, 0, n, ui::Entries::All, at, depth + 1, tree.size, a, b);
    assert(ui::group_row(tree, at, depth, a) == ui::group_row(tree, at, depth, b));
    assert(ui::grouped(tree.kids, a) == ui::grouped(tree.kids, b));
}

proof fn lemma_entries_same(
    kids: Seq<Tree>,
    from: int,
    to: int,
    entries: ui::Entries,
    at: Place,
    depth: int,
    parent_size: u64,
    a: Shown,
    b: Shown,
)
    requires
        forall|i: int|
            0 <= i < kids.len() ==> same_visible(
                #[trigger] kids[i],
                path::join_parts(at.parts, kids[i].name),
                a,
                b,
            ),
        same_but_caches(a, b),
    ensures
        ui::entry_rows(kids, from, to, entries, at, depth, parent_size, a) == ui::entry_rows(
            kids,
            from,
            to,
            entries,
            at,
            depth,
            parent_size,
            b,
        ),
    decreases kids, (to - from) as nat,
{
    if !(from < 0 || to > kids.len() || from >= to) {
        lemma_entries_same(kids, from, to - 1, entries, at, depth, parent_size, a, b);
        let kid = kids[to - 1];
        lemma_rows_same(kid, path::join_place(at, kid.name), depth, parent_size, a, b);
    }
}

proof fn lemma_text_visible(
    tree: Tree,
    at: Seq<Seq<char>>,
    cache: Set<Seq<Seq<char>>>,
    a: Shown,
    b: Shown,
)
    requires
        agrees(tree, at, cache, Wanted::Text(b.filter)),
        b.filter.len() > 0,
        b.text_cache is None,
        a == (Shown { text_cache: Some(cache), ..b }),
    ensures
        same_visible(tree, at, a, b),
    decreases tree,
{
    assert forall|i: int| 0 <= i < tree.kids.len() implies same_visible(
        #[trigger] tree.kids[i],
        path::join_parts(at, tree.kids[i].name),
        a,
        b,
    ) by {
        lemma_text_visible(
            tree.kids[i],
            path::join_parts(at, tree.kids[i].name),
            cache,
            a,
            b,
        );
    }
}

/// The rows are the same whether what matches the search was found before or
/// is looked up node by node.
pub proof fn lemma_text_cache_agrees(tree: Tree, shown: Shown)
    requires
        well_named(tree),
        shown.filter.len() > 0,
        shown.text_cache is None,
    ensures
        ui::view_rows(
            tree,
            Shown {
                text_cache: Some(matching::marked(tree, Wanted::Text(shown.filter))),
                ..shown
            },
        ) == ui::view_rows(tree, shown),
{
    let wanted = Wanted::Text(shown.filter);
    let cache = matching::marked(tree, wanted);
    let cached = Shown { text_cache: Some(cache), ..shown };
    let top = path::parse_parts(tree.name);
    lemma_agrees(tree, top, tree, top, wanted);
    lemma_text_visible(tree, top, cache, cached, shown);
    lemma_rows_same(tree, path::place(tree.name), 0, tree.size, cached, shown);
}

/// Whether one of the files is of a category.
spec fn any_of(files: Seq<Tree>, cat: FileCategory) -> bool {
    exists|i: int| 0 <= i < files.len() && categories::category_of(#[trigger] files[i].name) == cat
}

proof fn lemma_any_add(a: Seq<Tree>, b: Seq<Tree>, cat: FileCategory)
    ensures
        any_of(a + b, cat) == (any_of(a, cat) || any_of(b, cat)),
{
    let all = a + b;
    if any_of(a, cat) {
        let i = choose|i: int|
            0 <= i < a.len() && categories::category_of(#[trigger] a[i].name) == cat;
        assert(all[i] == a[i]);
        assert(categories::category_of(all[i].name) == cat);
    }
    if any_of(b, cat) {
        let i = choose|i: int|
            0 <= i < b.len() && categories::category_of(#[trigger] b[i].name) == cat;
        assert(all[a.len() + i] == b[i]);
        assert(categories::category_of(all[a.len() + i].name) == cat);
    }
    if any_of(all, cat) {
        let i = choose|i: int|
            0 <= i < all.len() && categories::category_of(#[trigger] all[i].name) == cat;
        if i < a.len() {
            assert(categories::category_of(a[i].name) == cat);
        } else {
            assert(categories::category_of(b[i - a.len()].name) == cat);
        }
    }
}

proof fn lemma_any_of_kids(kids: Seq<Tree>, cat: FileCategory)
    ensures
        any_of(tree::files_of(kids), cat) == exists|i: int|
            0 <= i < kids.len() && categories::has_category(#[trigger] kids[i], cat),
    decreases kids.len(),
{
    if kids.len() > 0 {
        let front = kids.drop_last();
        lemma_any_of_kids(front, cat);
        lemma_any_add(tree::files_of(front), tree::files(kids.last()), cat);
        let last = kids.len() - 1;
        assert(categories::has_category(kids[last], cat) == any_of(
            tree::files(kids.last()),
            cat,
        ));
        if any_of(tree::files_of(front), cat) {
            let i = choose|i: int|
                0 <= i < front.len() && categories::has_category(#[trigger] front[i], cat);
            assert(categories::has_category(kids[i], cat));
        }
        if exists|i: int| 0 <= i < kids.len() && categories::has_category(#[trigger] kids[i], cat) {
            let i = choose|i: int|
                0 <= i < kids.len() && categories::has_category(#[trigger] kids[i], cat);
            if i < last {
                assert(categories::has_category(front[i], cat));
            }
        }
    }
}

/// A tree holds a file of a category exactly where the search by category
/// finds one.
pub proof fn lemma_category_is_wanted(tree: Tree, cat: FileCategory)
    ensures
        categories::has_category(tree, cat) == matching::holds_wanted(
            tree,
            Wanted::Category(cat),
        ),
    decreases tree,
{
    let kids = tree.kids;
    let wanted = Wanted::Category(cat);
    assert forall|i: int| 0 <= i < kids.len() implies categories::has_category(
        #[trigger] kids[i],
        cat,
    ) == matching::holds_wanted(kids[i], wanted) by {
        lemma_category_is_wanted(kids[i], cat);
    }
    lemma_any_of_kids(kids, cat);
    let below = tree::files_of(kids);
    assert(categories::has_category(tree, cat) == any_of(tree::files(tree), cat));
    if !tree.dir {
        lemma_any_add(seq![tree], below, cat);
        assert(any_of(seq![tree], cat) == (categories::category_of(tree.name) == cat)) by {
            assert(seq![tree][0] == tree);
            if categories::category_of(tree.name) == cat {
                assert(categories::category_of(seq![tree][0].name) == cat);
            }
        }
    }
    if exists|i: int| 0 <= i < kids.len() && categories::has_category(#[trigger] kids[i], cat) {
        let i = choose|i: int|
            0 <= i < kids.len() && categories::has_category(#[trigger] kids[i], cat);
        assert(matching::holds_wanted(kids[i], wanted));
    }
    if exists|i: int| 0 <= i < kids.len() && matching::holds_wanted(#[trigger] kids[i], wanted) {
        let i = choose|i: int|
            0 <= i < kids.len() && matching::holds_wanted(#[trigger] kids[i], wanted);
        assert(categories::has_category(kids[i], cat));
    }
}

proof fn lemma_category_visible(
    tree: Tree,
    at: Seq<Seq<char>>,
    cache: Set<Seq<Seq<char>>>,
    cat: FileCategory,
    a: Shown,
    b: Shown,
)
    requires
        agrees(tree, at, cache, Wanted::Category(cat)),
        b.category == Some(cat),
        b.cat_cache is None,
        a == (Shown { cat_cache: Some(cache), ..b }),
    ensures
        same_visible(tree, at, a, b),
    decreases tree,
{
    lemma_category_is_wanted(tree, cat);
    assert forall|i: int| 0 <= i < tree.kids.len() implies same_visible(
        #[trigger] tree.kids[i],
        path::join_parts(at, tree.kids[i].name),
        a,
        b,
    ) by {
        lemma_category_visible(
            tree.kids[i],
            path::join_parts(at, tree.kids[i].name),
            cache,
            cat,
            a,
            b,
        );
    }
}

/// The rows are the same whether what has the category was found before or is
/// looked up node by node.
pub proof fn lemma_category_cache_agrees(tree: Tree, shown: Shown, cat: FileCategory)
    requires
        well_named(tree),
        shown.category == Some(cat),
        shown.cat_cache is None,
    ensures
        ui::view_rows(
            tree,
            Shown {
                cat_cache: Some(matching::marked(tree, Wanted::Category(cat))),
                ..shown
            },
        ) == ui::view_rows(tree, shown),
{
    let wanted = Wanted::Category(cat);
    let cache = matching::marked(tree, wanted);
    let cached = Shown { cat_cache: Some(cache), ..shown };
    let top = path::parse_parts(tree.name);
    lemma_agrees(tree, top, tree, top, wanted);
    lemma_category_visible(tree, top, cache, cat, cached, shown);
    lemma_rows_same(tree, path::place(tree.name), 0, tree.size, cached, shown);
}

/// Where hidden entries are not shown, no row is that of one.
pub proof fn lemma_no_hidden_rows(tree: Tree, shown: Shown, i: int)
    requires
        !shown.show_hidden,
        0 <= i < ui::view_rows(tree, shown).len(),
    ensures
        !ui::view_rows(tree, shown)[i].is_hidden,
{
    lemma_rows_not_hidden(tree, path::place(tree.name), 0, tree.size, shown);
}

spec fn none_hidden(rows: Seq<Row>) -> bool {
    forall|i: int| 0 <= i < rows.len() ==> !(#[trigger] rows[i]).is_hidden
}

proof fn lemma_rows_not_hidden(
    tree: Tree,
    at: Place,
    depth: int,
    parent_size: u64,
    shown: Shown,
)
    requires
        !shown.show_hidden,
    ensures
        none_hidden(ui::rows(tree, at, depth, parent_size, shown)),
    decreases tree, 0nat,
{
    let n = tree.kids.len() as int;
    let size = tree::total_size(ui::loose_files(tree.kids, shown.show_hidden));
    let place = ui::group_place(tree.kids, size, 0);
    lemma_entries_not_hidden(
        tree.kids,
        0,
        place,
        ui::Entries::Folders,
        at,
        depth + 1,
        tree.size,
        shown,
    );
    lemma_entries_not_hidden(
        tree.kids,
        0,
        n,
        ui::Entries::LooseFiles,
        at,
        depth + 2,
        size as u64,
        shown,
    );
    lemma_entries_not_hidden(
        tree.kids,
        place,
        n,
        ui::Entries::Folders,
        at,
        depth + 1,
        tree.size,
        shown,
    );
    lemma_entries_not_hidden(
        tree.kids,
        0,
        n,
        ui::Entries::All,
        at,
        depth + 1,
        tree.size,
        shown,
    );
}

proof fn lemma_entries_not_hidden(
    kids: Seq<Tree>,
    from: int,
    to: int,
    entries: ui::Entries,
    at: Place,
    depth: int,
    parent_size: u64,
    shown: Shown,
)
    requires
        !shown.show_hidden,
    ensures
        none_hidden(ui::entry_rows(kids, from, to, entries, at, depth, parent_size, shown)),
    decreases kids, (to - from) as nat,
{
    if !(from < 0 || to > kids.len() || from >= to) {
        lemma_entries_not_hidden(kids, from, to - 1, entries, at, depth, parent_size, shown);
        let kid = kids[to - 1];
        lemma_rows_not_hidden(kid, path::join_place(at, kid.name), depth, parent_size, shown);
    }
}

/// Whether no row of either has the path of one of the other.
spec fn rows_apart(a: Seq<Row>, b: Seq<Row>) -> bool {
    forall|i: int, j: int|
        0 <= i < a.len() && 0 <= j < b.len() ==> (#[trigger] a[i]).path != (#[trigger] b[j]).path
}

proof fn lemma_rows_join(a: Seq<Row>, b: Seq<Row>)
    requires
        session::distinct_rows(a),
        session::distinct_rows(b),
        rows_apart(a, b),
    ensures
        session::distinct_rows(a + b),
{
    let all = a + b;
    assert forall|i: int, j: int| 0 <= i < j < all.len() implies (#[trigger] all[i]).path != (
    #[trigger] all[j]).path by {
        if j < a.len() {
            assert(a[i].path != a[j].path);
        } else if i >= a.len() {
            assert(b[i - a.len()].path != b[j - a.len()].path);
        } else {
            assert(a[i].path != b[j - a.len()].path);
        }
    }
}

proof fn lemma_apart_join(a: Seq<Row>, b: Seq<Row>, c: Seq<Row>)
    requires
        rows_apart(a, c),
        rows_apart(b, c),
    ensures
        rows_apart(a + b, c),
{
    let all = a + b;
    assert forall|i: int, j: int| 0 <= i < all.len() && 0 <= j < c.len() implies (
    #[trigger] all[i]).path != (#[trigger] c[j]).path by {
        if i < a.len() {
            assert(a[i].path != c[j].path);
        } else {
            assert(b[i - a.len()].path != c[j].path);
        }
    }
}

/// Whether a path lies in one of the entries `kids[from..to]` that are listed.
spec fn in_entry(
    path: Seq<Seq<char>>,
    kids: Seq<Tree>,
    from: int,
    to: int,
    entries: ui::Entries,
    at: Seq<Seq<char>>,
    show_hidden: bool,
) -> bool {
    exists|k: int|
        from <= k < to && ui::is_among(#[trigger] kids[k], entries, show_hidden) && below(
            path,
            at.push(kids[k].name),
        )
}

/// Two pieces of the entries that share none have no row in common.
proof fn lemma_pieces_apart(
    tree: Tree,
    a: Seq<Row>,
    from: int,
    to: int,
    entries: ui::Entries,
    b: Seq<Row>,
    from2: int,
    to2: int,
    entries2: ui::Entries,
    at: Seq<Seq<char>>,
    show_hidden: bool,
)
    requires
        well_named(tree),
        0 <= from <= to <= tree.kids.len(),
        0 <= from2 <= to2 <= tree.kids.len(),
        forall|i: int|
            0 <= i < a.len() ==> in_entry(
                (#[trigger] a[i]).path,
                tree.kids,
                from,
                to,
                entries,
                at,
                show_hidden,
            ),
        forall|i: int|
            0 <= i < b.len() ==> in_entry(
                (#[trigger] b[i]).path,
                tree.kids,
                from2,
                to2,
                entries2,
                at,
                show_hidden,
            ),
        to <= from2 || (entries is Folders && entries2 is LooseFiles) || (entries is LooseFiles
            && entries2 is Folders),
    ensures
        rows_apart(a, b),
{
    let kids = tree.kids;
    assert forall|i: int, j: int| 0 <= i < a.len() && 0 <= j < b.len() implies (
    #[trigger] a[i]).path != (#[trigger] b[j]).path by {
        let k = choose|k: int|
            from <= k < to && ui::is_among(#[trigger] kids[k], entries, show_hidden) && below(
                a[i].path,
                at.push(kids[k].name),
            );
        let m = choose|k: int|
            from2 <= k < to2 && ui::is_among(#[trigger] kids[k], entries2, show_hidden) && below(
                b[j].path,
                at.push(kids[k].name),
            );
        lemma_below_push(a[i].path, at, kids[k].name);
        lemma_below_push(b[j].path, at, kids[m].name);
        assert(k != m);
        if k < m {
            assert(kids[k].name != kids[m].name);
        } else {
            assert(kids[m].name != kids[k].name);
        }
    }
}

proof fn lemma_rows_differ(tree: Tree, at: Place, depth: int, parent_size: u64, shown: Shown)
    requires
        well_named(tree),
    ensures
        session::distinct_rows(ui::rows(tree, at, depth, parent_size, shown)),
        forall|i: int|
            0 <= i < ui::rows(tree, at, depth, parent_size, shown).len() ==> below(
                (#[trigger] ui::rows(tree, at, depth, parent_size, shown)[i]).path,
                at.parts,
            ),
    decreases tree, 0nat,
{
    let all = ui::rows(tree, at, depth, parent_size, shown);
    let kids = tree.kids;
    let hidden = shown.show_hidden;
    assert(at.parts.take(at.parts.len() as int) =~= at.parts);
    if ui::visible(tree, at.parts, shown) && tree.dir && (tree.expanded || shown.filter.len()
        > 0) {
        let own = seq![ui::node_row(tree, at, depth, parent_size)];
        let n = kids.len() as int;
        if ui::grouped(kids, shown) {
            let size = tree::total_size(ui::loose_files(kids, hidden));
            let place = ui::group_place(kids, size, 0);
            lemma_group_place(kids, size, 0);
            let folders = ui::Entries::Folders;
            let loose = ui::Entries::LooseFiles;
            let before = ui::entry_rows(kids, 0, place, folders, at, depth + 1, tree.size, shown);
            let files = ui::entry_rows(kids, 0, n, loose, at, depth + 2, size as u64, shown);
            let after = ui::entry_rows(kids, place, n, folders, at, depth + 1, tree.size, shown);
            let group = seq![ui::group_row(tree, at, depth, shown)];
            let members = if ui::group_open(at.parts, shown) {
                files
            } else {
                Seq::empty()
            };
            lemma_entries_differ(tree, 0, place, folders, at, depth + 1, tree.size, shown);
            lemma_entries_differ(tree, 0, n, loose, at, depth + 2, size as u64, shown);
            lemma_entries_differ(tree, place, n, folders, at, depth + 1, tree.size, shown);
            lemma_pieces_apart(
                tree, before, 0, place, folders, after, place, n, folders, at.parts, hidden,
            );
            lemma_pieces_apart(
                tree, before, 0, place, folders, members, 0, n, loose, at.parts, hidden,
            );
            lemma_pieces_apart(
                tree, members, 0, n, loose, after, place, n, folders, at.parts, hidden,
            );
            lemma_own_apart(tree, own, before, 0, place, folders, at.parts, hidden);
            lemma_own_apart(tree, own, members, 0, n, loose, at.parts, hidden);
            lemma_own_apart(tree, own, after, place, n, folders, at.parts, hidden);
            lemma_group_apart(tree, at, depth, shown, before, 0, place, folders);
            lemma_group_apart(tree, at, depth, shown, members, 0, n, loose);
            lemma_group_apart(tree, at, depth, shown, after, place, n, folders);
            lemma_group_name(at.parts);
            assert(below(group[0].path, at.parts)) by {
                assert(group[0].path.take(at.parts.len() as int) =~= at.parts);
            }
            lemma_rows_join(own, before);
            lemma_apart_join(own, before, group);
            lemma_rows_join(own + before, group);
            lemma_apart_join(own, before, members);
            lemma_apart_join(own + before, group, members);
            lemma_rows_join(own + before + group, members);
            lemma_apart_join(own, before, after);
            lemma_apart_join(own + before, group, after);
            lemma_apart_join(own + before + group, members, after);
            lemma_rows_join(own + before + group + members, after);
            assert(all == own + before + group + members + after);
            let pieces = own + before + group + members;
            assert forall|i: int| 0 <= i < all.len() implies below(
                (#[trigger] all[i]).path,
                at.parts,
            ) by {
                if i == 0 {
                    assert(all[i] == own[0]);
                } else if i < own.len() + before.len() {
                    assert(all[i] == before[i - own.len()]);
                } else if i < own.len() + before.len() + group.len() {
                    assert(all[i] == group[0]);
                } else if i < pieces.len() {
                    assert(all[i] == members[i - own.len() - before.len() - group.len()]);
                } else {
                    assert(all[i] == after[i - pieces.len()]);
                }
            }
        } else {
            let rest = ui::entry_rows(
                kids,
                0,
                n,
                ui::Entries::All,
                at,
                depth + 1,
                tree.size,
                shown,
            );
            lemma_entries_differ(tree, 0, n, ui::Entries::All, at, depth + 1, tree.size, shown);
            lemma_own_apart(tree, own, rest, 0, n, ui::Entries::All, at.parts, hidden);
            lemma_rows_join(own, rest);
            assert forall|i: int| 0 <= i < all.len() implies below(
                (#[trigger] all[i]).path,
                at.parts,
            ) by {
                if i > 0 {
                    assert(all[i] == rest[i - 1]);
                }
            }
        }
    }
}

pub(crate) proof fn lemma_group_place(kids: Seq<Tree>, size: nat, from: int)
    requires
        0 <= from <= kids.len(),
    ensures
        from <= ui::group_place(kids, size, from) <= kids.len(),
    decreases kids.len() - from,
{
    if from < kids.len() && !(kids[from].dir && kids[from].size < size) {
        lemma_group_place(kids, size, from + 1);
    }
}

pub(crate) proof fn lemma_group_name(at: Seq<Seq<char>>)
    ensures
        path::join_parts(at, ui::FILE_GROUP_NAME@) == at.push(ui::FILE_GROUP_NAME@),
{
    let group = ui::FILE_GROUP_NAME@;
    reveal_strlit("__file_group__");
    assert(path::plain_name(group)) by {
        assert(group.len() == 14);
        assert(!group.contains('/'));
    }
    path::lemma_join_plain(at, group);
}

proof fn lemma_own_apart(
    tree: Tree,
    own: Seq<Row>,
    rest: Seq<Row>,
    from: int,
    to: int,
    entries: ui::Entries,
    at: Seq<Seq<char>>,
    show_hidden: bool,
)
    requires
        own.len() == 1,
        own[0].path == at,
        forall|i: int|
            0 <= i < rest.len() ==> in_entry(
                (#[trigger] rest[i]).path,
                tree.kids,
                from,
                to,
                entries,
                at,
                show_hidden,
            ),
    ensures
        session::distinct_rows(own),
        rows_apart(own, rest),
        forall|i: int| 0 <= i < rest.len() ==> below((#[trigger] rest[i]).path, at),
{
    let kids = tree.kids;
    assert forall|i: int| 0 <= i < rest.len() implies below((#[trigger] rest[i]).path, at)
        && rest[i].path != at by {
        let k = choose|k: int|
            from <= k < to && ui::is_among(#[trigger] kids[k], entries, show_hidden) && below(
                rest[i].path,
                at.push(kids[k].name),
            );
        lemma_below_push(rest[i].path, at, kids[k].name);
    }
}

proof fn lemma_group_apart(
    tree: Tree,
    at: Place,
    depth: int,
    shown: Shown,
    rest: Seq<Row>,
    from: int,
    to: int,
    entries: ui::Entries,
)
    requires
        ui::grouped(tree.kids, shown),
        0 <= from <= to <= tree.kids.len(),
        forall|i: int|
            0 <= i < rest.len() ==> in_entry(
                (#[trigger] rest[i]).path,
                tree.kids,
                from,
                to,
                entries,
                at.parts,
                shown.show_hidden,
            ),
    ensures
        ({
            let group = seq![ui::group_row(tree, at, depth, shown)];
            &&& session::distinct_rows(group)
            &&& rows_apart(group, rest)
            &&& rows_apart(rest, group)
            &&& group[0].path != at.parts
        }),
{
    let kids = tree.kids;
    let group = seq![ui::group_row(tree, at, depth, shown)];
    lemma_group_name(at.parts);
    assert forall|i: int| 0 <= i < rest.len() implies (#[trigger] rest[i]).path
        != group[0].path by {
        let k = choose|k: int|
            from <= k < to && ui::is_among(#[trigger] kids[k], entries, shown.show_hidden)
                && below(rest[i].path, at.parts.push(kids[k].name));
        lemma_below_push(rest[i].path, at.parts, kids[k].name);
        assert(kids[k].name != ui::FILE_GROUP_NAME@);
    }
}

proof fn lemma_entries_differ(
    tree: Tree,
    from: int,
    to: int,
    entries: ui::Entries,
    at: Place,
    depth: int,
    parent_size: u64,
    shown: Shown,
)
    requires
        well_named(tree),
        0 <= from <= to <= tree.kids.len(),
    ensures
        ({
            let rows = ui::entry_rows(tree.kids, from, to, entries, at, depth, parent_size, shown);
            &&& session::distinct_rows(rows)
            &&& forall|i: int|
                0 <= i < rows.len() ==> in_entry(
                    (#[trigger] rows[i]).path,
                    tree.kids,
                    from,
                    to,
                    entries,
                    at.parts,
                    shown.show_hidden,
                )
        }),
    decreases tree.kids, (to - from) as nat,
{
    if from < to {
        let kids = tree.kids;
        let kid = kids[to - 1];
        let hidden = shown.show_hidden;
        lemma_entries_differ(tree, from, to - 1, entries, at, depth, parent_size, shown);
        let before = ui::entry_rows(kids, from, to - 1, entries, at, depth, parent_size, shown);
        let all = ui::entry_rows(kids, from, to, entries, at, depth, parent_size, shown);
        let here = path::join_place(at, kid.name);
        path::lemma_join_plain(at.parts, kid.name);
        assert(well_named(kid));
        lemma_rows_differ(kid, here, depth, parent_size, shown);
        assert forall|i: int| 0 <= i < before.len() implies in_entry(
            (#[trigger] before[i]).path,
            kids,
            from,
            to,
            entries,
            at.parts,
            hidden,
        ) by {
            let k = choose|k: int|
                from <= k < to - 1 && ui::is_among(#[trigger] kids[k], entries, hidden) && below(
                    before[i].path,
                    at.parts.push(kids[k].name),
                );
            assert(ui::is_among(kids[k], entries, hidden));
        }
        if ui::is_among(kid, entries, hidden) {
            let more = ui::rows(kid, here, depth, parent_size, shown);
            assert forall|i: int| 0 <= i < more.len() implies in_entry(
                (#[trigger] more[i]).path,
                kids,
                to - 1,
                to,
                entries,
                at.parts,
                hidden,
            ) && in_entry(more[i].path, kids, from, to, entries, at.parts, hidden) by {
                assert(ui::is_among(kids[to - 1], entries, hidden));
            }
            lemma_pieces_apart(
                tree, before, from, to - 1, entries, more, to - 1, to, entries, at.parts, hidden,
            );
            lemma_rows_join(before, more);
            assert forall|i: int| 0 <= i < all.len() implies in_entry(
                (#[trigger] all[i]).path,
                kids,
                from,
                to,
                entries,
                at.parts,
                hidden,
            ) by {
                if i < before.len() {
                    assert(all[i] == before[i]);
                } else {
                    assert(all[i] == more[i - before.len()]);
                }
            }
        }
    }
}

/// No two rows have the same path, where entries are well named.
pub proof fn lemma_rows_distinct(tree: Tree, shown: Shown)
    requires
        well_named(tree),
    ensures
        session::distinct_rows(ui::view_rows(tree, shown)),
{
    lemma_rows_differ(tree, path::place(tree.name), 0, tree.size, shown);
}

/// The row of a group never has the path of a real entry.
pub proof fn lemma_group_is_no_entry(tree: Tree, at: Place, shown: Shown, i: int)
    requires
        ui::grouped(tree.kids, shown),
        0 <= i < tree.kids.len(),
        path::plain_name(tree.kids[i].name),
    ensures
        ui::group_row(tree, at, 0, shown).path != path::join_parts(at.parts, tree.kids[i].name),
{
    path::lemma_join_plain(at.parts, tree.kids[i].name);
    lemma_group_name(at.parts);
    assert(tree.kids[i].name != ui::FILE_GROUP_NAME@);
    assert(at.parts.push(tree.kids[i].name).last() == tree.kids[i].name);
    assert(at.parts.push(ui::FILE_GROUP_NAME@).last() == ui::FILE_GROUP_NAME@);
}

proof fn lemma_found_below(tree: Tree, at: Seq<Seq<char>>, target: Seq<Seq<char>>)
    requires
        well_named(tree),
        navigate::node_at(tree, at, target) is Some,
    ensures
        below(target, at),
    decreases tree, tree.kids.len() + 1,
{
    if at == target {
        assert(target.take(at.len() as int) =~= at);
    } else {
        lemma_found_among(tree, 0, at, target);
    }
}

proof fn lemma_found_among(tree: Tree, from: int, at: Seq<Seq<char>>, target: Seq<Seq<char>>)
    requires
        well_named(tree),
        0 <= from,
        navigate::node_among(tree.kids, from, at, target) is Some,
    ensures
        below(target, at),
        target.len() > at.len(),
        exists|i: int|
            from <= i < tree.kids.len() && target[at.len() as int] == (
            #[trigger] tree.kids[i]).name,
    decreases tree, tree.kids.len() - from,
{
    let kid = tree.kids[from];
    path::lemma_join_plain(at, kid.name);
    if navigate::node_at(kid, at.push(kid.name), target) is Some {
        lemma_found_below(kid, at.push(kid.name), target);
        lemma_below_push(target, at, kid.name);
        assert(tree.kids[from].name == target[at.len() as int]);
    } else {
        lemma_found_among(tree, from + 1, at, target);
    }
}

pub(crate) proof fn lemma_named(kids: Seq<Tree>, name: Seq<char>, from: int)
    requires
        0 <= from <= kids.len(),
    ensures
        ({
            let i = navigate::first_named(kids, name, from);
            &&& from <= i <= kids.len()
            &&& i < kids.len() ==> kids[i].name == name
            &&& forall|k: int| from <= k < i ==> (#[trigger] kids[k]).name != name
        }),
    decreases kids.len() - from,
{
    if from < kids.len() && kids[from].name != name {
        lemma_named(kids, name, from + 1);
    }
}

proof fn lemma_among(
    tree: Tree,
    from: int,
    at: Seq<Seq<char>>,
    target: Seq<Seq<char>>,
    i: int,
)
    requires
        well_named(tree),
        0 <= from <= i < tree.kids.len(),
        path::next_part(at, target) == Some(tree.kids[i].name),
    ensures
        navigate::node_among(tree.kids, from, at, target) == navigate::node_at(
            tree.kids[i],
            at.push(tree.kids[i].name),
            target,
        ),
    decreases i - from,
{
    let kid = tree.kids[from];
    path::lemma_join_plain(at, kid.name);
    if from < i {
        if navigate::node_at(kid, at.push(kid.name), target) is Some {
            lemma_found_below(kid, at.push(kid.name), target);
            lemma_below_push(target, at, kid.name);
            assert(tree.kids[from].name != tree.kids[i].name);
        }
        lemma_among(tree, from + 1, at, target, i);
    } else if navigate::node_at(kid, at.push(kid.name), target) is None {
        if navigate::node_among(tree.kids, from + 1, at, target) is Some {
            lemma_found_among(tree, from + 1, at, target);
            let j = choose|j: int|
                from + 1 <= j < tree.kids.len() && target[at.len() as int] == (
                #[trigger] tree.kids[j]).name;
            assert(tree.kids[i].name != tree.kids[j].name);
        }
    }
}

/// The search through all nodes and the walk along the path find the same
/// node.
pub proof fn lemma_find_agrees(tree: Tree, at: Seq<Seq<char>>, target: Seq<Seq<char>>)
    requires
        well_named(tree),
    ensures
        navigate::node_at(tree, at, target) == navigate::lookup(tree, at, target),
    decreases tree,
{
    if at != target {
        match path::next_part(at, target) {
            Some(next) => {
                lemma_named(tree.kids, next, 0);
                let i = navigate::first_named(tree.kids, next, 0);
                if i < tree.kids.len() {
                    lemma_find_agrees(tree.kids[i], at.push(next), target);
                    lemma_among(tree, 0, at, target, i);
                } else if navigate::node_among(tree.kids, 0, at, target) is Some {
                    lemma_found_among(tree, 0, at, target);
                }
            },
            None => {
                if navigate::node_among(tree.kids, 0, at, target) is Some {
                    lemma_found_among(tree, 0, at, target);
                }
            },
        }
    }
}

/// The directory that holds a node is where its path leads without the last
/// component.
pub proof fn lemma_parent_is_shorter(tree: Tree, at: Seq<Seq<char>>, target: Seq<Seq<char>>)
    ensures
        navigate::parent_of(tree, at, target) matches Some(parent) ==> target.len() > 0 && parent
            == target.drop_last(),
    decreases tree,
{
    match path::next_part(at, target) {
        Some(next) => {
            if at.push(next) == target {
                assert(target.drop_last() =~= at);
            } else {
                let i = navigate::first_folder(tree.kids, next, 0);
                if 0 <= i < tree.kids.len() {
                    lemma_parent_is_shorter(tree.kids[i], at.push(next), target);
                }
            }
        },
        None => {},
    }
}

proof fn lemma_folder(kids: Seq<Tree>, name: Seq<char>, from: int)
    requires
        0 <= from <= kids.len(),
    ensures
        ({
            let i = navigate::first_folder(kids, name, from);
            from <= i <= kids.len() && (i < kids.len() ==> kids[i].name == name)
        }),
    decreases kids.len() - from,
{
    if from < kids.len() && !(kids[from].dir && kids[from].name == name) {
        lemma_folder(kids, name, from + 1);
    }
}

/// A node that was deleted is no longer found.
pub proof fn lemma_removed_is_gone(tree: Tree, at: Seq<Seq<char>>, target: Seq<Seq<char>>)
    requires
        distinct_names(tree),
    ensures
        navigate::removed(tree, at, target) matches Some((after, _)) ==> navigate::lookup(
            after,
            at,
            target,
        ) is None && after.name == tree.name,
    decreases tree,
{
    match path::next_part(at, target) {
        Some(next) => if tree.dir {
            if at.push(next) == target {
                let i = navigate::first_named(tree.kids, next, 0);
                lemma_named(tree.kids, next, 0);
                if i < tree.kids.len() {
                    let rest = tree.kids.remove(i);
                    lemma_named(rest, next, 0);
                    let j = navigate::first_named(rest, next, 0);
                    if j < rest.len() {
                        let k = if j < i {
                            j
                        } else {
                            j + 1
                        };
                        assert(rest[j] == tree.kids[k]);
                        assert(tree.kids[k].name == tree.kids[i].name);
                    }
                }
            } else {
                let i = navigate::first_folder(tree.kids, next, 0);
                lemma_folder(tree.kids, next, 0);
                if i < tree.kids.len() {
                    lemma_removed_is_gone(tree.kids[i], at.push(next), target);
                    match navigate::removed(tree.kids[i], at.push(next), target) {
                        Some((kid, size)) => {
                            let kids = tree.kids.update(i, kid);
                            lemma_named(kids, next, 0);
                            let j = navigate::first_named(kids, next, 0);
                            assert(kids[i].name == next);
                            assert(j <= i);
                            if j < i {
                                assert(kids[j] == tree.kids[j]);
                                assert(tree.kids[j].name == tree.kids[i].name);
                            }
                        },
                        None => {},
                    }
                }
            }
        },
        None => {},
    }
}

/// A trail of names that leads somewhere ends there, and each step leads to an
/// entry of the one before.
pub proof fn lemma_trail(root: Tree, target: Seq<Seq<char>>)
    ensures
        ({
            let trail = navigate::trail(root, target);
            &&& trail.len() > 0
            &&& trail[0] == (root.name, path::place(root.name))
            &&& trail.len() > 1 ==> trail.last().1.parts == target
            &&& forall|k: int|
                1 <= k < trail.len() ==> (#[trigger] trail[k]).1 == path::join_place(
                    trail[k - 1].1,
                    trail[k].0,
                )
        }),
{
    let top = path::place(root.name);
    lemma_trail_among(root.kids, 0, top, target);
}

proof fn lemma_trail_among(
    kids: Seq<Tree>,
    from: int,
    at: Place,
    target: Seq<Seq<char>>,
)
    ensures
        navigate::trail_among(kids, from, at, target) matches Some(trail) ==> {
            &&& trail.len() > 0
            &&& trail[0].1 == path::join_place(at, trail[0].0)
            &&& trail.last().1.parts == target
            &&& forall|k: int|
                1 <= k < trail.len() ==> (#[trigger] trail[k]).1 == path::join_place(
                    trail[k - 1].1,
                    trail[k].0,
                )
        },
    decreases kids, (kids.len() - from) as nat,
{
    if 0 <= from < kids.len() {
        let kid = kids[from];
        let here = path::join_place(at, kid.name);
        lemma_trail_among(kid.kids, 0, here, target);
        lemma_trail_among(kids, from + 1, at, target);
    }
}

} // verus!
