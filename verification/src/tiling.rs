//! What the tiles of a treemap stand for.

use vstd::prelude::*;

use crate::agreement;
use crate::agreement::well_named;
use crate::categories::FileCategory;
use crate::color::Rgb;
use crate::matching;
use crate::navigate;
use crate::path;
use crate::path::{NodePath, Place};
use crate::showing;
use crate::sizes;
use crate::text;
use crate::tree;
use crate::tree::{FileNode, Tree};
use crate::treemap;
use crate::treemap::{
    build_nested_tiles, plan_treemap, tile_clicked, treemap_total, Asked, Tile, TreemapAction,
    TreemapEntry, TreemapPlan,
};
use crate::ui;
use crate::ui::Shown;

verus! {

/// Whether an entry belongs in a treemap: it is not empty, it is not hidden where hidden
/// ones are left out, and it is or holds a file of the category.
pub open spec fn belongs(kid: Tree, category: Option<FileCategory>, show_hidden: bool) -> bool {
    &&& kid.size > 0
    &&& kid.hidden ==> show_hidden
    &&& category is Some ==> showing::categorized_within(kid, category->0)
}

/// The entries of a directory that belong in its treemap, as they stand.
pub open spec fn belonging(
    dir: Tree,
    category: Option<FileCategory>,
    show_hidden: bool,
) -> Seq<Tree> {
    dir.kids.filter(|kid: Tree| belongs(kid, category, show_hidden))
}

/// A treemap is made of the entries that belong in it.
pub proof fn lemma_candidates(dir: Tree, category: Option<FileCategory>, show_hidden: bool)
    ensures
        treemap::candidates(dir, category, show_hidden) == belonging(dir, category, show_hidden),
{
    assert forall|kid: Tree| #[trigger]
        treemap::eligible(kid, category, show_hidden) == belongs(kid, category, show_hidden) by {
        if category is Some {
            agreement::lemma_category_is_wanted(kid, category->0);
            matching::lemma_category_is_held(kid, category->0);
        }
    }
    assert((|kid: Tree| treemap::eligible(kid, category, show_hidden)) =~= (|kid: Tree|
        belongs(kid, category, show_hidden)));
}

/// The treemap and the tree view agree: an entry with a size is in the treemap exactly
/// where the tree view shows it with the same settings.
pub proof fn lemma_views_agree(
    kid: Tree,
    at: Seq<Seq<char>>,
    category: Option<FileCategory>,
    show_hidden: bool,
    groups: Option<Set<Seq<Seq<char>>>>,
)
    ensures
        treemap::eligible(kid, category, show_hidden) <==> kid.size > 0 && ui::visible(
            kid,
            at,
            unfiltered(category, show_hidden, groups),
        ),
        belongs(kid, category, show_hidden) <==> kid.size > 0 && showing::passes(
            kid,
            unfiltered(category, show_hidden, groups),
        ),
{
    showing::lemma_visible_passes(kid, at, unfiltered(category, show_hidden, groups));
}

/// The settings of a tree view without a name filter.
pub open spec fn unfiltered(
    category: Option<FileCategory>,
    show_hidden: bool,
    groups: Option<Set<Seq<Seq<char>>>>,
) -> Shown {
    Shown {
        filter: Seq::empty(),
        category,
        show_hidden,
        text_cache: None,
        cat_cache: None,
        groups,
    }
}

/// Of the entries as many as there is room for are taken, each no more often than it is
/// there, and no entry that is left out is larger than one that is taken.
pub proof fn lemma_largest(entries: Seq<Tree>, limit: nat)
    requires
        entries.len() <= usize::MAX,
    ensures
        ({
            let taken = treemap::largest(entries, limit);
            &&& taken.len() == if entries.len() < limit {
                entries.len()
            } else {
                limit
            }
            &&& taken.to_multiset().subset_of(entries.to_multiset())
            &&& forall|i: int| 0 <= i < taken.len() ==> entries.contains(#[trigger] taken[i])
            &&& forall|entry: Tree, i: int|
                entries.contains(entry) && 0 <= i < taken.len() && !taken.contains(entry)
                    ==> #[trigger] taken[i].size >= #[trigger] entry.size
        }),
{
    broadcast use vstd::seq_lib::group_to_multiset_ensures;
    broadcast use vstd::multiset::group_multiset_axioms;

    if entries.len() > limit {
        let order = tree::by_size(entries);
        let n = limit as int;
        let taken = order.take(n);
        tree::lemma_by_size(entries);
        vstd::seq_lib::lemma_multiset_commutative(taken, order.skip(n));
        assert(taken + order.skip(n) =~= order);
        assert forall|i: int| 0 <= i < taken.len() implies entries.contains(
            #[trigger] taken[i],
        ) by {
            assert(order.contains(order[i]));
            assert(order.to_multiset().count(order[i]) > 0);
        }
        assert forall|entry: Tree, i: int|
            entries.contains(entry) && 0 <= i < taken.len() && !taken.contains(
                entry,
            ) implies #[trigger] taken[i].size >= #[trigger] entry.size by {
            assert(entries.to_multiset().count(entry) > 0);
            assert(order.contains(entry));
            let m = order.index_of(entry);
            if m < n {
                assert(taken[m] == entry);
            }
            assert(order[i].size >= order[m].size);
        }
    }
}

proof fn lemma_filter_part(kids: Seq<Tree>, keep: spec_fn(Tree) -> bool)
    ensures
        kids.filter(keep).to_multiset().subset_of(kids.to_multiset()),
        forall|i: int|
            0 <= i < kids.filter(keep).len() ==> kids.contains(#[trigger] kids.filter(keep)[i])
                && keep(kids.filter(keep)[i]),
        forall|kid: Tree|
            #[trigger] kids.contains(kid) && keep(kid) ==> kids.filter(keep).contains(kid),
    decreases kids.len(),
{
    broadcast use vstd::seq_lib::group_to_multiset_ensures;
    broadcast use vstd::multiset::group_multiset_axioms;

    reveal(Seq::filter);
    if kids.len() > 0 {
        let front = kids.drop_last();
        let last = kids.last();
        let kept = kids.filter(keep);
        lemma_filter_part(front, keep);
        assert(front.push(last) =~= kids);
        assert(kids.to_multiset() =~= front.to_multiset().insert(last));
        assert(kept == if keep(last) {
            front.filter(keep).push(last)
        } else {
            front.filter(keep)
        });
        assert forall|i: int| 0 <= i < kept.len() implies kids.contains(#[trigger] kept[i])
            && keep(kept[i]) by {
            if i < front.filter(keep).len() {
                assert(kept[i] == front.filter(keep)[i]);
                let m = front.index_of(kept[i]);
                assert(kids[m] == kept[i]);
            } else {
                assert(kids[kids.len() - 1] == kept[i]);
            }
        }
        assert forall|kid: Tree| #[trigger] kids.contains(kid) && keep(kid) implies kept.contains(
            kid,
        ) by {
            let m = kids.index_of(kid);
            if m < front.len() {
                assert(front[m] == kid);
                assert(front.contains(kid));
                let k = front.filter(keep).index_of(kid);
                assert(kept[k] == kid);
            } else {
                assert(kept[kept.len() - 1] == kid);
            }
        }
    }
}

/// Every tile stands for an entry that belongs in the treemap and is no small file, and
/// each that belongs has a tile, unless it is a small file, or there is no room: then
/// every tile is at least as large. No entry has two tiles.
pub proof fn lemma_tiled(
    dir: Tree,
    category: Option<FileCategory>,
    show_hidden: bool,
    threshold: u64,
)
    requires
        dir.kids.len() <= usize::MAX,
    ensures
        ({
            let tiled = treemap::tiled(dir, category, show_hidden, threshold);
            &&& tiled.len() <= 200
            &&& tiled.to_multiset().subset_of(dir.kids.to_multiset())
            &&& forall|i: int| #![trigger tiled[i]]
                0 <= i < tiled.len() ==> {
                    &&& dir.kids.contains(tiled[i])
                    &&& belongs(tiled[i], category, show_hidden)
                    &&& tiled[i].dir || tiled[i].size >= threshold
                }
            &&& forall|kid: Tree| #[trigger]
                dir.kids.contains(kid) && belongs(kid, category, show_hidden) ==> {
                    ||| tiled.contains(kid)
                    ||| !kid.dir && kid.size < threshold
                    ||| tiled.len() == 200 && forall|i: int|
                        0 <= i < tiled.len() ==> (#[trigger] tiled[i]).size >= kid.size
                }
        }),
{
    let keep = |kid: Tree| belongs(kid, category, show_hidden);
    let large = |kid: Tree| kid.dir || kid.size >= threshold;
    let shown = dir.kids.filter(keep);
    let chosen = shown.filter(large);
    let tiled = treemap::tiled(dir, category, show_hidden, threshold);
    lemma_candidates(dir, category, show_hidden);
    assert(shown == treemap::candidates(dir, category, show_hidden));
    assert((|entry: Tree| entry.dir || entry.size >= threshold) =~= large);
    assert(tiled == treemap::largest(chosen, 200));
    lemma_filter_part(dir.kids, keep);
    lemma_filter_part(shown, large);
    tree::lemma_total_filter(dir.kids, keep);
    tree::lemma_total_filter(shown, large);
    lemma_largest(chosen, 200);
    assert forall|i: int| #![trigger tiled[i]] 0 <= i < tiled.len() implies dir.kids.contains(
        tiled[i],
    ) && belongs(tiled[i], category, show_hidden) && (tiled[i].dir || tiled[i].size
        >= threshold) by {
        let m = chosen.index_of(tiled[i]);
        assert(chosen[m] == tiled[i]);
        let k = shown.index_of(chosen[m]);
        assert(shown[k] == tiled[i]);
    }
    assert forall|kid: Tree| #[trigger]
        dir.kids.contains(kid) && belongs(kid, category, show_hidden) implies {
        ||| tiled.contains(kid)
        ||| !kid.dir && kid.size < threshold
        ||| tiled.len() == 200 && forall|i: int|
            0 <= i < tiled.len() ==> (#[trigger] tiled[i]).size >= kid.size
    } by {
        assert(shown.contains(kid));
        if large(kid) {
            assert(chosen.contains(kid));
            if !tiled.contains(kid) {
                assert(chosen.len() > 200) by {
                    if chosen.len() <= 200 {
                        assert(tiled == chosen);
                    }
                }
            }
        }
    }
}

/// What the tiles take up together.
pub open spec fn tiles_size(tiles: Seq<Tile>) -> nat
    decreases tiles.len(),
{
    if tiles.len() == 0 {
        0
    } else {
        tiles_size(tiles.drop_last()) + tiles.last().size as nat
    }
}

proof fn lemma_tiles_size(entries: Seq<Tree>, at: Place)
    ensures
        tiles_size(treemap::tiles_of(entries, at)) == tree::total_size(entries),
    decreases entries.len(),
{
    if entries.len() > 0 {
        lemma_tiles_size(entries.drop_last(), at);
        assert(treemap::tiles_of(entries, at).drop_last() =~= treemap::tiles_of(
            entries.drop_last(),
            at,
        ));
    }
}

/// Whether a tile shows an entry of the directory at `at`.
pub open spec fn depicts(tile: Tile, at: Seq<Seq<char>>, kid: Tree) -> bool {
    &&& tile.at.parts == at.push(kid.name)
    &&& tile.name == kid.name
    &&& tile.size == kid.size
    &&& tile.is_dir == kid.dir
    &&& tile.child_count == if kid.dir {
        Some(kid.kids.len() as int)
    } else {
        None
    }
}

/// The directory that a treemap is of: the one at the zoomed path, or the whole tree where
/// nothing stands there.
pub open spec fn zoomed(root: Tree, zoom: Option<Seq<Seq<char>>>) -> (Tree, Seq<Seq<char>>) {
    let top = path::parse_parts(root.name);
    if zoom is Some && navigate::lookup(root, top, zoom->0) is Some {
        (navigate::lookup(root, top, zoom->0)->0, zoom->0)
    } else {
        (root, top)
    }
}

/// Whether tiles, and what is folded into the rest, are a treemap of the directory at `at`.
/// Each tile shows an entry that belongs there and is no small file. What belongs there is
/// a tile or folded: together they are as many and as large as all that belongs there, and
/// what is folded is a small file, or no larger than any tile.
pub open spec fn maps(
    tiles: Seq<Tile>,
    folded_count: nat,
    folded_size: nat,
    dir: Tree,
    at: Seq<Seq<char>>,
    category: Option<FileCategory>,
    show_hidden: bool,
    threshold: u64,
) -> bool {
    let all = belonging(dir, category, show_hidden);
    &&& tiles.len() <= 200
    &&& tiles.len() + folded_count == all.len()
    &&& tiles_size(tiles) + folded_size == tree::total_size(all)
    &&& forall|i: int| #![trigger tiles[i]]
        0 <= i < tiles.len() ==> exists|kid: Tree| #[trigger]
            dir.kids.contains(kid) && belongs(kid, category, show_hidden) && depicts(
                tiles[i],
                at,
                kid,
            ) && (kid.dir || kid.size >= threshold)
    &&& forall|kid: Tree| #[trigger]
        dir.kids.contains(kid) && belongs(kid, category, show_hidden) ==> {
            ||| exists|i: int| 0 <= i < tiles.len() && depicts(#[trigger] tiles[i], at, kid)
            ||| !kid.dir && kid.size < threshold
            ||| tiles.len() == 200 && forall|i: int|
                0 <= i < tiles.len() ==> (#[trigger] tiles[i]).size >= kid.size
        }
}

#[verifier::rlimit(60)]
proof fn lemma_maps(
    dir: Tree,
    at: Place,
    category: Option<FileCategory>,
    show_hidden: bool,
    threshold: u64,
)
    requires
        dir.kids.len() <= usize::MAX,
        well_named(dir),
    ensures
        ({
            let all = treemap::candidates(dir, category, show_hidden);
            let own = treemap::tiled(dir, category, show_hidden, threshold);
            &&& own.len() <= all.len()
            &&& tree::total_size(own) <= tree::total_size(all)
            &&& own.len() == all.len() ==> own == all
            &&& maps(
                treemap::tiles_of(own, at),
                (all.len() - own.len()) as nat,
                (tree::total_size(all) - tree::total_size(own)) as nat,
                dir,
                at.parts,
                category,
                show_hidden,
                threshold,
            )
        }),
{
    let all = treemap::candidates(dir, category, show_hidden);
    let own = treemap::tiled(dir, category, show_hidden, threshold);
    let tiles = treemap::tiles_of(own, at);
    lemma_tiles_size(own, at);
    lemma_all_tiled(dir, category, show_hidden, threshold);
    treemap::lemma_tiled_within(all, threshold, 200);
    lemma_candidates(dir, category, show_hidden);
    assert forall|i: int| 0 <= i < tiles.len() implies depicts(
        #[trigger] tiles[i],
        at.parts,
        own[i],
    ) && dir.kids.contains(own[i]) by {
        lemma_tiled(dir, category, show_hidden, threshold);
        let k = dir.kids.index_of(own[i]);
        assert(path::plain_name(dir.kids[k].name));
        path::lemma_join_plain(at.parts, own[i].name);
    }
    lemma_tiled(dir, category, show_hidden, threshold);
    assert forall|kid: Tree| #[trigger]
        dir.kids.contains(kid) && belongs(kid, category, show_hidden) implies {
        ||| exists|i: int| 0 <= i < tiles.len() && depicts(#[trigger] tiles[i], at.parts, kid)
        ||| !kid.dir && kid.size < threshold
        ||| tiles.len() == 200 && forall|i: int|
            0 <= i < tiles.len() ==> (#[trigger] tiles[i]).size >= kid.size
    } by {
        if own.contains(kid) {
            let i = own.index_of(kid);
            assert(depicts(tiles[i], at.parts, kid));
        } else if tiles.len() == 200 {
            assert forall|i: int| 0 <= i < tiles.len() implies (#[trigger] tiles[i]).size
                == own[i].size by {}
        }
    }
}

/// A path that may be missing.
pub open spec fn zoom_parts(zoom: Option<&NodePath>) -> Option<Seq<Seq<char>>> {
    match zoom {
        Some(path) => Some(path@),
        None => None,
    }
}

/// A plan is a treemap of the zoomed directory.
pub proof fn lemma_plan(
    root: FileNode,
    zoom: Option<&NodePath>,
    category: Option<FileCategory>,
    show_hidden: bool,
    threshold: u64,
    plan: TreemapPlan,
)
    requires
        call_ensures(plan_treemap, (&root, zoom, category, show_hidden, threshold), plan),
        well_named(root@),
        zoomed(root@, zoom_parts(zoom)).0.kids.len() <= usize::MAX,
    ensures
        ({
            let (dir, at) = zoomed(root@, zoom_parts(zoom));
            let tiles = treemap::tile_views(plan.entries@);
            &&& plan.view_path@ == at
            &&& plan.view_size == dir.size
            &&& plan.other is Some ==> plan.other->0.count > 0
            &&& plan.other is Some ==> maps(
                tiles,
                plan.other->0.count as nat,
                plan.other->0.size as nat,
                dir,
                at,
                category,
                show_hidden,
                threshold,
            )
            &&& plan.other is None ==> maps(
                tiles,
                0,
                0,
                dir,
                at,
                category,
                show_hidden,
                threshold,
            )
        }),
{
    let top = path::parse_parts(root@.name);
    let (dir, at) = treemap::viewed(root@, treemap::path_of(zoom));
    if zoom is Some {
        agreement::lemma_find_agrees(root@, top, zoom->0@);
    }
    lemma_found_plain(root@, top, at.parts);
    lemma_maps(dir, at, category, show_hidden, threshold);
}

proof fn lemma_filter_all(kids: Seq<Tree>, keep: spec_fn(Tree) -> bool)
    ensures
        kids.filter(keep).len() <= kids.len(),
        kids.filter(keep).len() == kids.len() ==> kids.filter(keep) == kids,
    decreases kids.len(),
{
    reveal(Seq::filter);
    if kids.len() > 0 {
        let front = kids.drop_last();
        lemma_filter_all(front, keep);
        assert(front.push(kids.last()) =~= kids);
    }
}

proof fn lemma_all_tiled(
    dir: Tree,
    category: Option<FileCategory>,
    show_hidden: bool,
    threshold: u64,
)
    requires
        dir.kids.len() <= usize::MAX,
    ensures
        ({
            let all = treemap::candidates(dir, category, show_hidden);
            let own = treemap::tiled(dir, category, show_hidden, threshold);
            &&& all.len() <= usize::MAX
            &&& own.len() <= all.len()
            &&& own.len() == all.len() ==> own == all
        }),
{
    let all = treemap::candidates(dir, category, show_hidden);
    let large = |entry: Tree| entry.dir || entry.size >= threshold;
    lemma_filter_all(dir.kids, |kid: Tree| treemap::eligible(kid, category, show_hidden));
    lemma_filter_all(all, large);
    assert(all.filter(large) == treemap::prominent(all, threshold));
    lemma_largest(all.filter(large), 200);
}

proof fn lemma_found_plain(tree: Tree, at: Seq<Seq<char>>, path: Seq<Seq<char>>)
    requires
        well_named(tree),
    ensures
        navigate::lookup(tree, at, path) is Some ==> well_named(
            navigate::lookup(tree, at, path)->0,
        ),
    decreases tree,
{
    if at != path && path::next_part(at, path) is Some {
        let next = path::next_part(at, path)->0;
        let i = navigate::first_named(tree.kids, next, 0);
        if 0 <= i < tree.kids.len() {
            assert(well_named(tree.kids[i]));
            lemma_found_plain(tree.kids[i], at.push(next), path);
        }
    }
}

/// Inside the tile of a directory its largest entries are shown, those that are not empty,
/// no more than fifty and no more than there is room for.
pub proof fn lemma_nested(dir: Tree, budget: nat)
    requires
        dir.kids.len() <= usize::MAX,
    ensures
        ({
            let nested = treemap::nested_entries(dir, budget);
            &&& nested.len() <= 50
            &&& nested.len() <= budget
            &&& nested.to_multiset().subset_of(dir.kids.to_multiset())
            &&& forall|i: int|
                0 <= i < nested.len() ==> dir.kids.contains(#[trigger] nested[i])
                    && nested[i].size > 0
            &&& forall|kid: Tree, i: int|
                dir.kids.contains(kid) && kid.size > 0 && !nested.contains(kid) && 0 <= i
                    < nested.len() ==> #[trigger] nested[i].size >= #[trigger] kid.size
            &&& forall|kid: Tree| #[trigger]
                dir.kids.contains(kid) && kid.size > 0 && !nested.contains(kid) ==> nested.len()
                    == 50 || nested.len() == budget
        }),
{
    let keep = |kid: Tree| kid.size > 0;
    let shown = dir.kids.filter(keep);
    let limit = if budget < 50 {
        budget
    } else {
        50
    };
    let nested = treemap::nested_entries(dir, budget);
    assert(nested == treemap::largest(shown, limit));
    lemma_filter_part(dir.kids, keep);
    lemma_filter_all(dir.kids, keep);
    lemma_largest(shown, limit);
    assert forall|i: int| 0 <= i < nested.len() implies dir.kids.contains(#[trigger] nested[i])
        && nested[i].size > 0 by {
        let k = shown.index_of(nested[i]);
        assert(shown[k] == nested[i]);
    }
    assert forall|kid: Tree| #[trigger]
        dir.kids.contains(kid) && kid.size > 0 && !nested.contains(kid) implies nested.len() == 50
        || nested.len() == budget by {
        assert(shown.contains(kid));
        if shown.len() <= limit {
            assert(nested == shown);
        }
    }
    assert forall|kid: Tree, i: int|
        dir.kids.contains(kid) && kid.size > 0 && !nested.contains(kid) && 0 <= i
            < nested.len() implies #[trigger] nested[i].size >= #[trigger] kid.size by {
        assert(shown.contains(kid));
    }
}

/// What all that is shown takes together is the sum that the threshold is derived from.
pub proof fn lemma_whole(
    root: FileNode,
    zoom: Option<&NodePath>,
    category: Option<FileCategory>,
    show_hidden: bool,
    total: u64,
)
    requires
        call_ensures(treemap_total, (&root, zoom, category, show_hidden), total),
        well_named(root@),
    ensures
        total == tree::total_size(
            belonging(zoomed(root@, zoom_parts(zoom)).0, category, show_hidden),
        ),
{
    let top = path::parse_parts(root@.name);
    let (dir, _) = treemap::viewed(root@, treemap::path_of(zoom));
    if zoom is Some {
        agreement::lemma_find_agrees(root@, top, zoom->0@);
    }
    lemma_candidates(dir, category, show_hidden);
}

/// A click on a tile focuses it, and zooms to it where it is a directory.
pub proof fn lemma_click(path: NodePath, is_dir: bool, actions: Vec<TreemapAction>)
    requires
        call_ensures(tile_clicked, (&path, is_dir), actions),
    ensures
        ({
            let asked = treemap::asked(actions@);
            &&& asked.contains(Asked::Focus(path.place()))
            &&& asked.contains(Asked::ZoomTo(path.place())) <==> is_dir
            &&& asked.len() <= 2
        }),
{
    let asked = treemap::asked(actions@);
    if is_dir {
        assert(asked[0] == Asked::ZoomTo(path.place()));
        assert(asked[1] == Asked::Focus(path.place()));
    } else {
        assert(asked[0] == Asked::Focus(path.place()));
    }
}

/// The tiles inside that of a directory show its entries, at their places.
pub proof fn lemma_nested_tiles(
    node: FileNode,
    at: NodePath,
    budget: usize,
    nested: Vec<TreemapEntry>,
    i: int,
)
    requires
        call_ensures(build_nested_tiles, (&node, &at, budget), nested),
        well_named(node@),
        node@.kids.len() <= usize::MAX,
        0 <= i < nested@.len(),
    ensures
        nested@.len() <= 50,
        nested@.len() <= budget,
        exists|kid: Tree| #[trigger]
            node@.kids.contains(kid) && kid.size > 0 && depicts(nested@[i]@, at@, kid),
{
    let entries = treemap::nested_entries(node@, budget as nat);
    let tiles = treemap::plain_tiles_of(entries, at.place());
    lemma_nested(node@, budget as nat);
    assert(treemap::tile_views(nested@) == tiles);
    assert(tiles.len() == entries.len() == nested@.len());
    assert(treemap::tile_views(nested@)[i] == nested@[i]@);
    let kid = entries[i];
    let k = node@.kids.index_of(kid);
    assert(path::plain_name(node@.kids[k].name));
    path::lemma_join_plain(at@, kid.name);
    assert(depicts(nested@[i]@, at@, kid));
}

/// A darker colour is darker in each component by the amount, as far as it goes, and the
/// colours of ranks come round after eight and not before.
pub proof fn lemma_colors(component: u8, amount: u8, rank: nat, other: nat)
    ensures
        treemap::darker(component, amount) <= component,
        treemap::darker(component, 0) == component,
        component >= amount ==> treemap::darker(component, amount) + amount == component,
        component < amount ==> treemap::darker(component, amount) == 0,
        treemap::rank_hue(rank) == treemap::rank_hue(other) <==> rank % 8 == other % 8,
{
}

/// The folded entries are counted in their label, and the size of the view stands in its
/// own.
pub proof fn lemma_labels(count: nat, size: nat)
    ensures
        text::has_suffix(treemap::other_label(count), text::decimal(count) + ")"@),
        text::has_prefix(treemap::other_label(count), "Other ("@),
        text::has_suffix(treemap::view_label(size), sizes::compact(size) + ")"@),
{
    let label = treemap::other_label(count);
    let tail = text::decimal(count) + ")"@;
    assert(label =~= "Other ("@ + tail);
    assert(label.skip(label.len() - tail.len()) =~= tail);
    assert(label.take("Other ("@.len() as int) =~= "Other ("@);
    let view = treemap::view_label(size);
    let end = sizes::compact(size) + ")"@;
    assert(view =~= "  ("@ + end);
    assert(view.skip(view.len() - end.len()) =~= end);
}

/// A colour is darkened component by component.
pub proof fn lemma_darkened(c: Rgb, amount: u8, dark: Rgb)
    requires
        call_ensures(treemap::darken, (c, amount), dark),
    ensures
        dark.r <= c.r && dark.g <= c.g && dark.b <= c.b,
        c.r >= amount ==> dark.r + amount == c.r,
        c.g >= amount ==> dark.g + amount == c.g,
        c.b >= amount ==> dark.b + amount == c.b,
        c.r < amount ==> dark.r == 0,
        c.g < amount ==> dark.g == 0,
        c.b < amount ==> dark.b == 0,
{
}

/// Where not all entries are taken, the larger ones come before the smaller ones.
pub proof fn lemma_largest_first(entries: Seq<Tree>, limit: nat, i: int, j: int)
    requires
        limit < entries.len() <= usize::MAX,
        0 <= i <= j < limit,
    ensures
        treemap::largest(entries, limit)[i].size >= treemap::largest(entries, limit)[j].size,
{
    tree::lemma_by_size(entries);
    let order = tree::by_size(entries);
    assert(order[i].size >= order[j].size);
}

/// The trail begins at the root of the tree and ends where the treemap is; without a zoom
/// it is the root alone. Tiles next to each other have different colours.
pub proof fn lemma_plan_trail(
    root: FileNode,
    zoom: Option<&NodePath>,
    category: Option<FileCategory>,
    show_hidden: bool,
    threshold: u64,
    plan: TreemapPlan,
    i: int,
)
    requires
        call_ensures(plan_treemap, (&root, zoom, category, show_hidden, threshold), plan),
    ensures
        ({
            let trail = navigate::crumb_views(plan.breadcrumbs@);
            let tiles = treemap::tile_views(plan.entries@);
            &&& trail.len() > 0
            &&& trail[0] == (root@.name, path::place(root@.name))
            &&& zoom is None ==> trail.len() == 1
            &&& zoom is Some && trail.len() > 1 ==> trail.last().1.parts == zoom->0@
            &&& 0 <= i < tiles.len() - 1 ==> tiles[i].color != tiles[i + 1].color
        }),
{
    if zoom is Some {
        agreement::lemma_trail(root@, zoom->0@);
    }
}

} // verus!
