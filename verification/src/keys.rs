//! What keys and actions do.

use vstd::prelude::*;

use crate::agreement;
use crate::agreement::well_named;
use crate::categories::FileCategory;
use crate::commands;
use crate::commands::Effect;
use crate::config;
use crate::deleter::{DeleteJob, DeleteResults};
use crate::matching;
use crate::matching::Wanted;
use crate::navigate;
use crate::navigate::Change;
use crate::path;
use crate::path::{NodePath, Place};
use crate::platform;
use crate::scanner::ScanProgress;
use crate::screenshot::ViewMode;
use crate::session;
use crate::session::{Parts, Session, State};
use crate::targets;
use crate::text;
use crate::tree;
use crate::tree::Tree;
use crate::tree_view::{TreeAction, Wish};
use crate::treemap;
use crate::ui;
use crate::whereabouts;

verus! {

proof fn lemma_row_index(state: State, i: int, from: int)
    requires
        session::distinct_rows(state.rows),
        0 <= from <= i < state.rows.len(),
    ensures
        session::row_index(state.rows, state.rows[i].path, from) == i,
    decreases i - from,
{
    if from < i {
        assert(state.rows[from].path != state.rows[i].path);
        lemma_row_index(state, i, from + 1);
    }
}

/// The arrow up moves the focus to the row above and the arrow down to the row below;
/// from the first and the last row it does not move, and without a focus it goes to the
/// first. Nothing stays selected.
pub proof fn lemma_step_leads(state: State, i: int)
    requires
        session::distinct_rows(state.rows),
        0 <= i < state.rows.len(),
    ensures
        state.focused is None ==> session::stepped(state, true).focused == Some(
            ui::row_place(state.rows[0]),
        ) && session::stepped(state, false).focused == Some(ui::row_place(state.rows[0])),
        state.focused == Some(ui::row_place(state.rows[i])) ==> {
            &&& session::stepped(state, true).focused == Some(
                ui::row_place(
                    state.rows[if i == 0 {
                        0
                    } else {
                        i - 1
                    }],
                ),
            )
            &&& session::stepped(state, false).focused == Some(
                ui::row_place(
                    state.rows[if i == state.rows.len() - 1 {
                        i
                    } else {
                        i + 1
                    }],
                ),
            )
        },
        session::stepped(state, true).selected.len() == 0,
        session::stepped(state, false).selected.len() == 0,
{
    lemma_row_index(state, i, 0);
}

/// A change of display reaches every node that is found, and leaves it open or closed as
/// was asked for: a toggle turns it round. Its name and its size stay.
pub proof fn lemma_redisplayed(tree: Tree, path: Parts, change: Change)
    requires
        tree::formed(tree),
        navigate::lookup(tree, path::parse_parts(tree.name), path) is Some,
        navigate::lookup(tree, path::parse_parts(tree.name), path)->0.dir,
    ensures
        ({
            let top = path::parse_parts(tree.name);
            let before = navigate::lookup(tree, top, path)->0;
            let after = navigate::lookup(session::redisplayed(tree, path, change), top, path);
            &&& after is Some
            &&& after->0.name == before.name
            &&& after->0.size == before.size
            &&& after->0.dir
            &&& after->0.kids.len() == before.kids.len()
            &&& after->0.expanded == match change {
                Change::Toggle => !before.expanded,
                Change::Show(open) => open,
            }
        }),
{
    let top = path::parse_parts(tree.name);
    lemma_change_reaches(tree, top, path, change);
    navigate::lemma_changed_is_shown(tree, top, path, change);
    lemma_found_formed(tree, top, path);
    let before = navigate::lookup(tree, top, path)->0;
    tree::lemma_by_size(before.kids);
}

proof fn lemma_found_formed(tree: Tree, at: Parts, path: Parts)
    requires
        tree::formed(tree),
    ensures
        navigate::lookup(tree, at, path) is Some ==> tree::formed(
            navigate::lookup(tree, at, path)->0,
        ),
    decreases tree,
{
    if at != path && path::next_part(at, path) is Some {
        let next = path::next_part(at, path)->0;
        let i = navigate::first_named(tree.kids, next, 0);
        if 0 <= i < tree.kids.len() {
            assert(tree::formed(tree.kids[i]));
            lemma_found_formed(tree.kids[i], at.push(next), path);
        }
    }
}

proof fn lemma_change_reaches(tree: Tree, at: Parts, path: Parts, change: Change)
    requires
        tree::formed(tree),
        navigate::lookup(tree, at, path) is Some,
    ensures
        navigate::changed(tree, at, path, change).1,
    decreases tree,
{
    if at != path {
        let next = path::next_part(at, path)->0;
        let i = navigate::first_named(tree.kids, next, 0);
        assert(tree::formed(tree.kids[i]));
        lemma_change_reaches(tree.kids[i], at.push(next), path, change);
    }
}

/// The arrow left closes an open directory, and else goes to the directory that holds the
/// focused node. The arrow right opens a closed directory that has entries, and goes into
/// an open one: to the row below. Opening and closing leave the focus where it is.
pub proof fn lemma_turn_node(state: State, tree: Tree, at: Place)
    requires
        state.tree == Some(tree),
        state.focused == Some(at),
        !targets::is_group(state.rows, at.parts),
        well_named(tree),
        tree::formed(tree),
        navigate::lookup(tree, path::parse_parts(tree.name), at.parts) is Some,
    ensures
        ({
            let top = path::parse_parts(tree.name);
            let node = navigate::lookup(tree, top, at.parts)->0;
            let left = session::turned(state, true);
            let right = session::turned(state, false);
            &&& node.dir && node.expanded ==> {
                &&& left.focused == state.focused
                &&& left.rows_dirty
                &&& left.tree is Some
                &&& navigate::lookup(left.tree->0, top, at.parts) is Some
                &&& !navigate::lookup(left.tree->0, top, at.parts)->0.expanded
            }
            &&& !(node.dir && node.expanded) && at.parts != top ==> {
                &&& left.focused is Some
                &&& left.focused->0.parts == at.parts.drop_last()
                &&& left.tree == state.tree
            }
            &&& !(node.dir && node.expanded) && at.parts == top ==> left == state
            &&& node.dir && !node.expanded && node.kids.len() > 0 ==> {
                &&& right.focused == state.focused
                &&& right.rows_dirty
                &&& right.tree is Some
                &&& navigate::lookup(right.tree->0, top, at.parts) is Some
                &&& navigate::lookup(right.tree->0, top, at.parts)->0.expanded
            }
            &&& node.dir && node.expanded ==> {
                &&& right.tree == state.tree
                &&& forall|i: int|
                    session::distinct_rows(state.rows) && 0 <= i < state.rows.len() - 1
                        && #[trigger] state.rows[i].path == at.parts ==> right.focused == Some(
                        ui::row_place(state.rows[i + 1]),
                    )
            }
            &&& !node.dir ==> right == state
        }),
{
    let top = path::parse_parts(tree.name);
    let node = navigate::lookup(tree, top, at.parts)->0;
    agreement::lemma_well_named(tree);
    whereabouts::lemma_parent_holds(tree, top, at.parts);
    if node.dir {
        lemma_redisplayed(tree, at.parts, Change::Show(false));
        lemma_redisplayed(tree, at.parts, Change::Show(true));
    }
    assert forall|i: int|
        session::distinct_rows(state.rows) && 0 <= i < state.rows.len() - 1
            && #[trigger] state.rows[i].path == at.parts implies session::row_index(
        state.rows,
        at.parts,
        0,
    ) == i by {
        lemma_row_index(state, i, 0);
    }
}

/// On the row of a group the arrow left closes an open group, and from a closed one goes
/// to its directory; the arrow right opens a closed one. No other group changes.
pub proof fn lemma_turn_group(state: State, at: Place, other: Parts)
    requires
        state.focused == Some(at),
        targets::is_group(state.rows, at.parts),
        at.parts.len() > 0,
        at.parts.last() != path::root_part(),
    ensures
        ({
            let dir = at.parts.drop_last();
            let left = session::turned(state, true);
            let right = session::turned(state, false);
            &&& state.groups.contains(dir) ==> !left.groups.contains(dir) && left.focused
                == state.focused && left.rows_dirty
            &&& !state.groups.contains(dir) ==> left.focused is Some && left.focused->0.parts
                == dir && left.groups == state.groups
            &&& !state.groups.contains(dir) ==> right.groups.contains(dir) && right.focused
                == state.focused && right.rows_dirty
            &&& state.groups.contains(dir) ==> right.groups == state.groups
            &&& other != dir ==> left.groups.contains(other) == state.groups.contains(other)
                && right.groups.contains(other) == state.groups.contains(other)
        }),
{
}

/// The space bar turns round whether the focused directory is open, and moves nothing.
pub proof fn lemma_space_toggles(state: State, tree: Tree, at: Place)
    requires
        state.tree == Some(tree),
        state.focused == Some(at),
        tree::formed(tree),
        navigate::lookup(tree, path::parse_parts(tree.name), at.parts) is Some,
        navigate::lookup(tree, path::parse_parts(tree.name), at.parts)->0.dir,
    ensures
        ({
            let top = path::parse_parts(tree.name);
            let after = session::spaced(state);
            &&& after.tree is Some
            &&& navigate::lookup(after.tree->0, top, at.parts) is Some
            &&& navigate::lookup(after.tree->0, top, at.parts)->0.expanded
                == !navigate::lookup(tree, top, at.parts)->0.expanded
            &&& after.focused == state.focused
            &&& after.rows_dirty
        }),
{
    lemma_redisplayed(tree, at.parts, Change::Toggle);
}

/// Taking a path out of places takes out that one and no other.
pub proof fn lemma_without(places: Seq<Place>, path: Parts, other: Parts)
    ensures
        session::among(session::without(places, path), other) <==> session::among(places, other)
            && other != path,
    decreases places.len(),
{
    reveal(Seq::filter);
    let whole = path::parts_of(places);
    let kept = path::parts_of(session::without(places, path));
    if places.len() > 0 {
        let front = places.drop_last();
        let last = places.last();
        lemma_without(front, path, other);
        let shorter = path::parts_of(front);
        let before = path::parts_of(session::without(front, path));
        assert(whole =~= shorter.push(last.parts));
        assert(kept =~= if last.parts != path {
            before.push(last.parts)
        } else {
            before
        });
        lemma_pushed(shorter, last.parts, other);
        lemma_pushed(before, last.parts, other);
    }
}

proof fn lemma_pushed(parts: Seq<Parts>, last: Parts, other: Parts)
    ensures
        parts.push(last).contains(other) <==> parts.contains(other) || other == last,
{
    let longer = parts.push(last);
    assert(longer[parts.len() as int] == last);
    if parts.contains(other) {
        assert(longer[parts.index_of(other)] == other);
    }
    if longer.contains(other) {
        let i = longer.index_of(other);
        if i < parts.len() {
            assert(parts[i] == other);
        }
    }
}

/// The rows of a session are those of a tree view with its search text, its category, its
/// hidden entries and its open groups, where each node is looked at.
pub proof fn lemma_session_rows(state: State, tree: Tree)
    requires
        state.tree == Some(tree),
        well_named(tree),
    ensures
        session::shown_rows(state) == ui::view_rows(
            tree,
            ui::Shown {
                filter: state.applied,
                category: state.filter,
                show_hidden: state.show_hidden,
                text_cache: None,
                cat_cache: None,
                groups: Some(state.groups),
            },
        ),
{
    let plain = ui::Shown {
        filter: state.applied,
        category: state.filter,
        show_hidden: state.show_hidden,
        text_cache: None,
        cat_cache: None,
        groups: Some(state.groups),
    };
    let with_text = ui::Shown {
        text_cache: if state.applied.len() > 0 {
            Some(matching::marked(tree, Wanted::Text(state.applied)))
        } else {
            None
        },
        ..plain
    };
    if state.applied.len() > 0 {
        agreement::lemma_text_cache_agrees(tree, plain);
    }
    if let Some(cat) = state.filter {
        agreement::lemma_category_cache_agrees(tree, with_text, cat);
    }
}

/// Bringing the rows up to date changes nothing but the rows, and afterwards they show the
/// tree.
pub proof fn lemma_refreshed_rows(state: State)
    requires
        state.rows_dirty,
    ensures
        session::refreshed(state).rows == session::shown_rows(state),
        !session::refreshed(state).rows_dirty,
        session::refreshed(state).tree == state.tree,
        session::refreshed(state).selected == state.selected,
        session::refreshed(state).focused == state.focused,
        state.tree is None ==> session::refreshed(state).rows.len() == 0,
{
}

/// Once a path was deleted it is no longer found; the tree keeps its name, the rows are
/// marked as out of date, and no error is shown that was not there.
pub proof fn lemma_deleted_is_gone(state: State, tree: Tree, path: Parts)
    requires
        state.tree == Some(tree),
        well_named(tree),
        tree::formed(tree),
        path != path::parse_parts(tree.name),
    ensures
        ({
            let after = commands::deletion_noted(state, path, None);
            &&& after.tree is Some
            &&& after.tree->0.name == tree.name
            &&& navigate::lookup(after.tree->0, path::parse_parts(tree.name), path) is None
            &&& after.rows_dirty
            &&& after.error == state.error
        }),
{
    let top = path::parse_parts(tree.name);
    agreement::lemma_well_named(tree);
    agreement::lemma_removed_is_gone(tree, top, path);
    if navigate::removed(tree, top, path) is None {
        lemma_not_removed(tree, top, path);
    }
}

proof fn lemma_not_removed(tree: Tree, at: Parts, path: Parts)
    requires
        agreement::distinct_names(tree),
        tree::formed(tree),
        path != at,
        navigate::removed(tree, at, path) is None,
    ensures
        navigate::lookup(tree, at, path) is None,
    decreases tree,
{
    if let Some(next) = path::next_part(at, path) {
        let i = navigate::first_named(tree.kids, next, 0);
        agreement::lemma_named(tree.kids, next, 0);
        if i < tree.kids.len() && at.push(next) != path {
            let kid = tree.kids[i];
            assert(tree::formed(kid));
            if kid.dir {
                let f = navigate::first_folder(tree.kids, next, 0);
                whereabouts::lemma_folder_is_first(tree.kids, next, 0);
                if f != i {
                    if f < tree.kids.len() {
                        assert(tree.kids[f].name == next);
                        if f < i {
                            assert(tree.kids[f].name != tree.kids[i].name);
                        } else {
                            assert(tree.kids[i].name != tree.kids[f].name);
                        }
                    } else {
                        assert(!(tree.kids[i].name == next && tree.kids[i].dir));
                    }
                }
                lemma_not_removed(kid, at.push(next), path);
                assert(navigate::lookup(kid, at.push(next), path) is None);
            } else {
                assert(kid.kids.len() == 0);
                if let Some(step) = path::next_part(at.push(next), path) {
                    agreement::lemma_named(kid.kids, step, 0);
                }
                assert(navigate::lookup(kid, at.push(next), path) is None);
            }
        }
    }
}

/// The treemap shows the directory that was asked for.
pub proof fn lemma_zoom_shows(state: State, tree: Tree, at: Place)
    requires
        state.tree == Some(tree),
        well_named(tree),
        navigate::lookup(tree, path::parse_parts(tree.name), at.parts) is Some,
    ensures
        ({
            let after = commands::zoomed(state, at);
            let top = path::parse_parts(tree.name);
            let (node, place) = treemap::viewed(tree, after.zoom);
            &&& after.tree == state.tree
            &&& place.parts == at.parts
            &&& Some(node) == navigate::lookup(tree, top, at.parts)
        }),
{
    let top = path::parse_parts(tree.name);
    agreement::lemma_find_agrees(tree, top, at.parts);
}

/// An action of the tree view deletes nothing for good: what it deletes goes to the trash,
/// and is what the row, or the selected rows, stand for. All other actions delete nothing;
/// those that are to be confirmed only ask, and keep what they would delete.
pub proof fn lemma_actions_spare(effect: Effect, state: State, wish: Wish)
    requires
        commands::is_effect(effect, state, wish),
    ensures
        effect is Delete ==> {
            &&& effect->Delete_0.use_trash
            &&& !state.deleting
            &&& wish is Trash ==> path::places(effect->Delete_0.paths@)
                == targets::deletion_targets(
                state.rows,
                state.tree,
                wish->Trash_0,
                state.show_hidden,
            )
            &&& wish is TrashSelected ==> path::places(effect->Delete_0.paths@)
                == targets::first_seen(
                targets::all_targets(state.rows, state.tree, state.selected, state.show_hidden),
            )
            &&& wish is Trash || wish is TrashSelected
        },
        wish is ConfirmDelete ==> {
            let after = commands::acted(state, wish);
            let kept = after.confirm_delete->0;
            &&& effect is Nothing
            &&& after.deleting == state.deleting
            &&& after.confirm_delete is Some
            &&& kept.0 == wish->ConfirmDelete_0
            &&& kept.2 == targets::deletion_targets(
                state.rows,
                state.tree,
                wish->ConfirmDelete_0,
                state.show_hidden,
            )
        },
        wish is ConfirmDeleteSelected ==> {
            let after = commands::acted(state, wish);
            let kept = after.confirm_batch_delete->0;
            &&& effect is Nothing
            &&& after.deleting == state.deleting
            &&& after.confirm_batch_delete is Some
            &&& kept.0 == state.selected.len()
            &&& kept.1 == targets::first_seen(
                targets::all_targets(state.rows, state.tree, state.selected, state.show_hidden),
            )
        },
        commands::acted(state, wish).tree == state.tree,
{
}

/// A toggle of a directory in the tree view turns it round; a toggle of a group opens a
/// closed one and closes an open one.
pub proof fn lemma_toggles(state: State, tree: Tree, at: Place)
    requires
        state.tree == Some(tree),
        tree::formed(tree),
    ensures
        ({
            let top = path::parse_parts(tree.name);
            let after = commands::opened_or_closed(state, Wish::ToggleExpand(at));
            let node = navigate::lookup(tree, top, at.parts);
            node is Some && node->0.dir ==> {
                &&& after.tree is Some
                &&& navigate::lookup(after.tree->0, top, at.parts) is Some
                &&& navigate::lookup(after.tree->0, top, at.parts)->0.expanded
                    == !node->0.expanded
                &&& after.rows_dirty
            }
        }),
        ({
            let after = commands::opened_or_closed(state, Wish::ToggleFileGroup(at));
            let dir = at.parts.drop_last();
            at.parts.len() > 0 && at.parts.last() != path::root_part() ==> {
                &&& after.groups.contains(dir) == !state.groups.contains(dir)
                &&& after.tree == state.tree
                &&& after.rows_dirty
            }
        }),
{
    let node = navigate::lookup(tree, path::parse_parts(tree.name), at.parts);
    if node is Some && node->0.dir {
        lemma_redisplayed(tree, at.parts, Change::Toggle);
    }
}

/// The delete key, and the delete action, move what the row stands for to the trash, where
/// there is something and no deletion runs.
pub proof fn lemma_delete_key(session: &mut Session, job: Option<DeleteJob>, at: Place)
    requires
        call_ensures(Session::press_delete, (session,), job),
        old(session)@.focused == Some(at),
    ensures
        ({
            let state = old(session)@;
            let found = targets::deletion_targets(
                state.rows,
                state.tree,
                at,
                state.show_hidden,
            );
            &&& job is Some <==> found.len() > 0 && !state.deleting
            &&& job is Some ==> job->0.use_trash && path::places(job->0.paths@) == found
            &&& job is Some ==> final(session)@.deleting && final(session)@.delete_total
                == found.len()
            &&& !session::among(final(session)@.selected, at.parts)
            &&& final(session)@.tree == state.tree
        }),
{
    lemma_without(old(session)@.selected, at.parts, at.parts);
}

/// Deleting for good waits for the answer: the question keeps what it is about, and
/// deletes nothing.
pub proof fn lemma_question_waits(session: &mut Session, path: NodePath)
    requires
        call_ensures(Session::ask_delete, (session, &path), ()),
    ensures
        ({
            let state = old(session)@;
            let after = final(session)@;
            let kept = after.confirm_delete->0;
            &&& after.confirm_delete is Some
            &&& kept.0 == path.place()
            &&& kept.2 == targets::deletion_targets(
                state.rows,
                state.tree,
                path.place(),
                state.show_hidden,
            )
            &&& after.deleting == state.deleting
            &&& after.tree == state.tree
        }),
{
}

/// A no deletes nothing. A yes deletes for good what the question was about, where no
/// other deletion runs. Either way the question is gone.
pub proof fn lemma_answer(session: &mut Session, yes: bool, job: Option<DeleteJob>)
    requires
        call_ensures(Session::answer_delete, (session, yes), job),
    ensures
        ({
            let state = old(session)@;
            let kept = state.confirm_delete->0;
            &&& final(session)@.confirm_delete is None
            &&& final(session)@.tree == state.tree
            &&& !yes ==> job is None && final(session)@.deleting == state.deleting
                && final(session)@.selected == state.selected
            &&& state.confirm_delete is None ==> job is None
            &&& yes && state.confirm_delete is Some ==> {
                &&& job is Some <==> kept.2.len() > 0 && !state.deleting
                &&& job is Some ==> !job->0.use_trash && path::places(job->0.paths@) == kept.2
                &&& !session::among(final(session)@.selected, kept.0.parts)
            }
        }),
{
    let kept = old(session)@.confirm_delete->0;
    lemma_without(old(session)@.selected, kept.0.parts, kept.0.parts);
}

/// The same holds of the question about the selected rows.
pub proof fn lemma_batch_answer(session: &mut Session, yes: bool, job: Option<DeleteJob>)
    requires
        call_ensures(Session::answer_batch_delete, (session, yes), job),
    ensures
        ({
            let state = old(session)@;
            let kept = state.confirm_batch_delete->0;
            &&& final(session)@.confirm_batch_delete is None
            &&& final(session)@.tree == state.tree
            &&& !yes ==> job is None && final(session)@.deleting == state.deleting
                && final(session)@.selected == state.selected
            &&& state.confirm_batch_delete is None ==> job is None
            &&& yes && state.confirm_batch_delete is Some ==> {
                &&& job is Some <==> kept.1.len() > 0 && !state.deleting
                &&& job is Some ==> !job->0.use_trash && path::places(job->0.paths@) == kept.1
                &&& final(session)@.selected.len() == 0
            }
        }),
{
}

/// Moving the selected rows to the trash touches what they stand for, each path once, and
/// leaves nothing selected.
pub proof fn lemma_batch_trash(session: &mut Session, job: Option<DeleteJob>)
    requires
        call_ensures(Session::batch_trash_selected, (session,), job),
    ensures
        ({
            let state = old(session)@;
            let found = targets::first_seen(
                targets::all_targets(state.rows, state.tree, state.selected, state.show_hidden),
            );
            &&& job is Some <==> found.len() > 0 && !state.deleting
            &&& job is Some ==> job->0.use_trash && path::places(job->0.paths@) == found
            &&& final(session)@.selected.len() == 0
            &&& final(session)@.tree == state.tree
        }),
{
}

/// Showing hidden entries twice is as before; the rows are marked each time, and the
/// document that is written remembers the choice.
pub proof fn lemma_hidden_toggled(session: &mut Session, document: Option<String>)
    requires
        call_ensures(Session::toggle_hidden, (session,), document),
    ensures
        final(session)@.show_hidden == !old(session)@.show_hidden,
        final(session)@.rows_dirty,
        final(session)@.treemap_dirty,
        final(session)@.tree == old(session)@.tree,
        document is Some ==> {
            let (_, hidden) = config::loaded(Some(document->0@));
            hidden == final(session)@.show_hidden
        },
{
}

/// Choosing a category filters by it, choosing it once more shows all again.
pub proof fn lemma_category_chosen(session: &mut Session, chosen: Option<FileCategory>)
    requires
        call_ensures(Session::choose_category, (session, chosen), ()),
    ensures
        chosen is Some && old(session)@.filter != chosen ==> final(session)@.filter == chosen,
        chosen == old(session)@.filter ==> final(session)@.filter is None,
        chosen is None ==> final(session)@.filter is None,
        final(session)@.rows_dirty,
        final(session)@.treemap_dirty,
{
}

/// Closing the panel of file types drops its filter; opening it filters nothing.
pub proof fn lemma_panel(session: &mut Session)
    requires
        call_ensures(Session::toggle_categories, (session,), ()),
    ensures
        final(session)@.show_categories == !old(session)@.show_categories,
        !final(session)@.show_categories ==> final(session)@.filter is None,
        final(session)@.show_categories ==> final(session)@.filter == old(session)@.filter,
        final(session)@.filter != old(session)@.filter ==> final(session)@.rows_dirty,
{
}

/// A search that was typed filters the rows once it is applied.
pub proof fn lemma_search_applied(session: &mut Session)
    requires
        call_ensures(Session::apply_search, (session,), ()),
    ensures
        final(session)@.applied == old(session)@.query,
        final(session)@.query == old(session)@.query,
        final(session)@.rows_dirty,
{
}

/// A scan that begins shows no tree, no error and no selection; one that ends shows its
/// tree, unfiltered, with what was counted.
pub proof fn lemma_scan(
    state: State,
    path: Place,
    disk: Option<(u64, u64)>,
    volumes: Seq<platform::Volume>,
    tree: Tree,
    stats: Seq<(FileCategory, u64, usize)>,
    progress: ScanProgress,
    duration: Option<(u64, u32)>,
)
    ensures
        ({
            let begun = commands::scan_begun(state, path, disk, volumes);
            &&& begun.scanning
            &&& begun.tree is None
            &&& begun.error is None
            &&& begun.selected.len() == 0
            &&& begun.scan_path == Some(path)
            &&& begun.last_path == Some(path)
            &&& begun.disk == disk
            &&& begun.last_scan.fallback_count == 0
            &&& begun.show_hidden == state.show_hidden
        }),
        ({
            let ended = commands::scan_ended(state, tree, stats, progress, duration);
            &&& !ended.scanning
            &&& ended.tree is Some
            &&& ended.tree->0.name == tree.name
            &&& ended.tree->0.size == tree.size
            &&& ended.filter is None
            &&& ended.stats == Some(stats)
            &&& ended.rows_dirty && ended.treemap_dirty
            &&& ended.last_scan.file_count == progress.file_count
            &&& ended.last_scan.total_size == progress.total_size
            &&& ended.last_scan.fallback_count == progress.fallback_count
            &&& duration is Some ==> ended.last_scan.duration == duration
        }),
{
    reveal_with_fuel(tree::auto_opened, 2);
}

/// What comes back from a deletion is taken once: afterwards none runs, and space was freed
/// exactly where something was deleted.
pub proof fn lemma_deletion_taken(
    session: &mut Session,
    results: DeleteResults,
    freed: bool,
    i: int,
)
    requires
        call_ensures(Session::poll_delete_completion, (session, Some(results)), freed),
        old(session)@.deleting,
        0 <= i < results@.len(),
    ensures
        !final(session)@.deleting,
        final(session)@.delete_done == old(session)@.delete_total,
        results@[i].1 is None ==> freed,
        freed ==> exists|k: int| 0 <= k < results@.len() && (#[trigger] results@[k]).1 is None,
{
    let views = commands::result_views(results@);
    lemma_noted_idle(commands::deletion_over(old(session)@), views, views.len());
    assert(views[i] == (results@[i].0@, session::maybe_text(results@[i].1)));
    if commands::some_deleted(views, views.len()) {
        let k = choose|k: int| 0 <= k < views.len() && (#[trigger] views[k]).1 is None;
        assert(views[k] == (results@[k].0@, session::maybe_text(results@[k].1)));
        assert(results@[k].1 is None);
    }
}

proof fn lemma_noted_idle(state: State, results: Seq<(Parts, Option<Seq<char>>)>, n: nat)
    ensures
        commands::deletions_noted(state, results, n).deleting == state.deleting,
        commands::deletions_noted(state, results, n).delete_done == state.delete_done,
    decreases n,
{
    if n > 0 {
        lemma_noted_idle(state, results, (n - 1) as nat);
    }
}

/// Every path that was deleted is gone from the tree once the results are taken, and one
/// that was not leaves the tree as it is.
pub proof fn lemma_results_noted(
    state: State,
    results: Seq<(Parts, Option<Seq<char>>)>,
    n: nat,
)
    requires
        n < results.len(),
        results[n as int].1 is Some,
    ensures
        commands::deletions_noted(state, results, n + 1).tree == commands::deletions_noted(
            state,
            results,
            n,
        ).tree,
        commands::deletions_noted(state, results, n + 1).error is Some,
{
}

/// The questions say how much they are about: the number of files of a group and of the
/// rows that are selected, and the path of anything else.
pub proof fn lemma_questions(state: State, path: Place, n: nat)
    ensures
        !targets::is_group(state.rows, path.parts) ==> text::has_suffix(
            session::question(state, path),
            path.text,
        ),
        targets::is_group(state.rows, path.parts) ==> text::has_prefix(
            session::question(state, path),
            "Permanently delete "@ + text::decimal(
                targets::deletion_targets(
                    state.rows,
                    state.tree,
                    path,
                    state.show_hidden,
                ).len(),
            ) + " files"@,
        ),
        text::has_prefix(
            session::batch_question(n),
            "Permanently delete "@ + text::decimal(n) + " selected item(s)"@,
        ),
{
    reveal_strlit(" files in\n");
    reveal_strlit(" files");
    reveal_strlit(" selected item(s)? This cannot be undone.");
    reveal_strlit(" selected item(s)");
    let asked = session::question(state, path);
    if targets::is_group(state.rows, path.parts) {
        let count = targets::deletion_targets(
            state.rows,
            state.tree,
            path,
            state.show_hidden,
        ).len();
        let head = "Permanently delete "@ + text::decimal(count) + " files"@;
        assert(asked.take(head.len() as int) =~= head);
    } else {
        assert(asked.skip(asked.len() - path.text.len()) =~= path.text);
    }
    let batch = session::batch_question(n);
    let begin = "Permanently delete "@ + text::decimal(n) + " selected item(s)"@;
    assert(batch.take(begin.len() as int) =~= begin);
}

/// To reveal a path, or to copy it, hands on just that path and changes nothing.
pub proof fn lemma_paths_handed_on(session: &mut Session, action: TreeAction, effect: Effect)
    requires
        call_ensures(Session::act, (session, &action), effect),
        action is RevealInFinder || action is CopyPath,
    ensures
        action matches TreeAction::RevealInFinder(path) ==> effect matches Effect::Reveal(shown)
            && shown.place() == path.place(),
        action matches TreeAction::CopyPath(path) ==> effect matches Effect::Copy(copied)
            && copied@ == path.place().text,
        final(session)@ == old(session)@,
{
}

/// What is shown beside the tree: the bar for the selected rows only where rows are
/// selected and the tree view is shown, the panel only where it is wanted, and neither
/// before a scan or during one; the toolbar as soon as one was begun.
pub proof fn lemma_shown_beside(session: &Session, bar: bool, panel: bool, tools: bool)
    requires
        call_ensures(Session::shows_batch_bar, (session,), bar),
        call_ensures(Session::shows_category_panel, (session,), panel),
        call_ensures(Session::shows_toolbar, (session,), tools),
    ensures
        session@.tree is None || session@.scanning ==> !bar && !panel,
        session@.tree is Some || session@.scanning <==> tools,
        session@.tree is Some && !session@.scanning ==> {
            &&& panel == session@.show_categories
            &&& bar == (session@.selected.len() != 0 && session@.view == ViewMode::Tree)
        },
{
}

/// A scan that is given up leaves all else as it was.
pub proof fn lemma_given_up(session: &mut Session)
    requires
        call_ensures(Session::cancel_scan, (session,), ()),
    ensures
        !final(session)@.scanning,
        final(session)@.tree == old(session)@.tree,
        final(session)@.rows == old(session)@.rows,
        final(session)@.error == old(session)@.error,
        final(session)@.focused == old(session)@.focused,
        final(session)@.selected == old(session)@.selected,
{
}

/// An error is shown behind what it happened to, another view shows the same tree, and the
/// space on the disk is taken note of only where something was scanned.
pub proof fn lemma_notes(
    at_error: &mut Session,
    at_view: &mut Session,
    at_disk: &mut Session,
    what: &str,
    error: &str,
    mode: ViewMode,
    disk: Option<(u64, u64)>,
)
    requires
        call_ensures(Session::report_error, (at_error, what, error), ()),
        call_ensures(Session::set_view, (at_view, mode), ()),
        call_ensures(Session::refresh_disk_info, (at_disk, disk), ()),
    ensures
        ({
            let shown = final(at_error)@.error;
            shown is Some && text::has_prefix(shown->0, what@) && text::has_suffix(shown->0, error@)
        }),
        final(at_error)@.tree == old(at_error)@.tree,
        final(at_view)@.view == mode,
        final(at_view)@.tree == old(at_view)@.tree,
        final(at_view)@.zoom == old(at_view)@.zoom,
        final(at_disk)@.disk == if old(at_disk)@.scan_path is None {
            old(at_disk)@.disk
        } else {
            disk
        },
{
    let shown = final(at_error)@.error->0;
    assert(shown.take(what@.len() as int) =~= what@);
    assert(shown.skip(shown.len() - error@.len()) =~= error@);
}

/// Before anything is deleted for good there is a question, which holds what it is about:
/// the focused path, or as many rows as are selected. To ask changes no tree, and deletes
/// nothing; to focus a path selects nothing.
pub proof fn lemma_asks_first(
    at_key: &mut Session,
    at_batch: &mut Session,
    at_focus: &mut Session,
    path: &NodePath,
)
    requires
        call_ensures(Session::press_shift_delete, (at_key,), ()),
        call_ensures(Session::ask_delete_selected, (at_batch,), ()),
        call_ensures(Session::focus, (at_focus, path), ()),
    ensures
        old(at_key)@.focused matches Some(at) ==> {
            let asked = final(at_key)@.confirm_delete;
            asked matches Some((place, _, targets)) && place == at && targets
                == session::targets_of(old(at_key)@, at)
        },
        old(at_key)@.focused is None ==> final(at_key)@ == old(at_key)@,
        final(at_key)@.tree == old(at_key)@.tree,
        ({
            let asked = final(at_batch)@.confirm_batch_delete;
            asked matches Some((count, targets)) && count == old(at_batch)@.selected.len()
                && targets == session::selected_targets(old(at_batch)@)
        }),
        final(at_batch)@.tree == old(at_batch)@.tree,
        final(at_focus)@.focused == Some(path.place()),
        final(at_focus)@.selected == old(at_focus)@.selected,
        final(at_focus)@.tree == old(at_focus)@.tree,
{
}

/// What is put into the trash is what the path stands for, all of it and at once; the path
/// is selected no longer, and others still are.
pub proof fn lemma_trashed(
    session: &mut Session,
    path: &NodePath,
    job: Option<DeleteJob>,
    other: Parts,
)
    requires
        call_ensures(Session::trash, (session, path), job),
    ensures
        job matches Some(job) ==> job.use_trash && path::places(job.paths@)
            == session::targets_of(old(session)@, path.place()),
        !session::among(final(session)@.selected, path@),
        other != path@ ==> session::among(final(session)@.selected, other) == session::among(
            old(session)@.selected,
            other,
        ),
        final(session)@.tree == old(session)@.tree,
{
    lemma_without(old(session)@.selected, path@, path@);
    lemma_without(old(session)@.selected, path@, other);
}

/// At first there is nothing but what was kept from the last time.
pub proof fn lemma_at_first(last: Option<NodePath>, show_hidden: bool, session: Session)
    requires
        call_ensures(Session::new, (last, show_hidden), session),
    ensures
        session@.tree is None && !session@.scanning && session@.error is None,
        session@.selected.len() == 0 && session@.rows.len() == 0,
        session@.focused is None && session@.filter is None && session@.query.len() == 0,
        session@.show_hidden == show_hidden,
        last matches Some(path) ==> session@.last_path == Some(path.place()),
        last is None ==> session@.last_path is None,
{
}

/// Actions are taken in turn, each on what those before it left; what they open and close
/// comes after all the rest, in turn too.
pub proof fn lemma_actions_in_turn(
    session: &mut Session,
    actions: &Vec<TreeAction>,
    effects: Vec<Effect>,
    state: State,
    wishes: Seq<Wish>,
    wish: Wish,
    n: nat,
)
    requires
        call_ensures(Session::run_actions, (session, actions), effects),
        n <= wishes.len(),
    ensures
        effects@.len() == actions@.len(),
        actions@.len() == 0 ==> final(session)@ == old(session)@,
        actions@.len() == 1 ==> {
            let only = actions@[0]@;
            &&& commands::is_effect(effects@[0], old(session)@, only)
            &&& final(session)@ == commands::opened_or_closed(
                commands::acted(old(session)@, only),
                only,
            )
        },
        commands::all_acted(state, wishes.push(wish), n) == commands::all_acted(state, wishes, n),
        commands::all_acted(state, wishes.push(wish), wishes.len() + 1) == commands::acted(
            commands::all_acted(state, wishes.push(wish), wishes.len()),
            wish,
        ),
        commands::all_opened_or_closed(state, wishes.push(wish), n)
            == commands::all_opened_or_closed(state, wishes, n),
        commands::all_opened_or_closed(state, wishes.push(wish), wishes.len() + 1)
            == commands::opened_or_closed(
            commands::all_opened_or_closed(state, wishes.push(wish), wishes.len()),
            wish,
        ),
{
    reveal_with_fuel(commands::all_acted, 2);
    reveal_with_fuel(commands::all_opened_or_closed, 2);
    let asked = crate::tree_view::wishes(actions@);
    assert(asked.len() == actions@.len());
    if actions@.len() == 1 {
        assert(asked[0] == actions@[0]@);
        assert(commands::is_effect(
            effects@[0],
            commands::all_acted(old(session)@, asked, 0),
            asked[0],
        ));
    }
    lemma_first_wishes(state, wishes, wish, n);
}

proof fn lemma_first_wishes(state: State, wishes: Seq<Wish>, wish: Wish, n: nat)
    requires
        n <= wishes.len(),
    ensures
        commands::all_acted(state, wishes.push(wish), n) == commands::all_acted(state, wishes, n),
        commands::all_opened_or_closed(state, wishes.push(wish), n)
            == commands::all_opened_or_closed(state, wishes, n),
    decreases n,
{
    if n > 0 {
        lemma_first_wishes(state, wishes, wish, (n - 1) as nat);
        assert(wishes.push(wish)[n - 1] == wishes[n - 1]);
    }
}

} // verus!
