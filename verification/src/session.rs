//! The state of the program, and what each command makes of it.

use vstd::prelude::*;

use crate::categories::{CategoryStats, FileCategory};
use crate::deleter::{BackgroundDeleter, DeleteJob};
use crate::matching;
use crate::matching::{build_category_match_cache, build_text_match_cache, Wanted};
use crate::navigate;
use crate::navigate::Change;
use crate::path;
use crate::path::{NodePath, PathSet, Place};
use crate::screenshot::ViewMode;
use crate::shape;
use crate::targets;
use crate::targets::{resolve_batch_targets, resolve_deletion_targets, row_is_file_group};
use crate::text;
use crate::text::push_decimal;
use crate::tree::{FileNode, Tree};
use crate::ui;
use crate::ui::{collect_cached_rows, CachedRow, Row};

verus! {

/// The components of a path.
pub type Parts = Seq<Seq<char>>;

/// A permanent deletion that waits for a confirmation. What it deletes was
/// found when the user asked, so that a later change of the tree does not
/// matter.
pub struct PendingDelete {
    pub path: NodePath,
    pub prompt: String,
    pub targets: Vec<NodePath>,
}

/// A permanent deletion of the selected rows that waits for a confirmation.
pub struct PendingBatchDelete {
    /// How many rows were selected when the user asked.
    pub item_count: usize,
    pub targets: Vec<NodePath>,
}

/// What is known of the last scan.
#[derive(Clone, Copy, Debug)]
pub struct LastScan {
    pub file_count: u64,
    pub total_size: u64,
    /// Whole seconds and billionths.
    pub duration: Option<(u64, u32)>,
    pub fallback_count: u64,
    pub access_denied_fallback_count: u64,
    pub bulk_scan_fallback_count: u64,
}

/// The state of the program.
pub struct Session {
    pub tree: Option<FileNode>,
    pub scanning: bool,
    pub scan_path: Option<NodePath>,
    pub error: Option<String>,
    pub confirm_delete: Option<PendingDelete>,
    pub confirm_batch_delete: Option<PendingBatchDelete>,
    pub search_query: String,
    /// The search that the rows show.
    pub applied_search: String,
    pub focused_path: Option<NodePath>,
    pub last_scan_path: Option<NodePath>,
    pub view_mode: ViewMode,
    pub treemap_zoom: Option<NodePath>,
    /// The bytes of the scanned file system and the available ones.
    pub scan_disk_info: Option<(u64, u64)>,
    /// True where a whole volume is scanned.
    pub scan_is_volume: bool,
    pub category_filter: Option<FileCategory>,
    pub category_stats: Option<CategoryStats>,
    pub show_hidden: bool,
    pub last_scan: LastScan,
    pub show_categories: bool,
    pub tree_scroll_to_focus: bool,
    pub cached_rows: Vec<CachedRow>,
    pub rows_dirty: bool,
    pub treemap_dirty: bool,
    pub selected_paths: PathSet,
    /// Where a range of rows begins.
    pub selection_anchor: Option<NodePath>,
    pub expanded_file_groups: PathSet,
    pub deleter: BackgroundDeleter,
}

/// The state as a mathematical value.
#[verifier::ext_equal]
pub struct State {
    pub tree: Option<Tree>,
    pub scanning: bool,
    pub scan_path: Option<Place>,
    pub error: Option<Seq<char>>,
    pub confirm_delete: Option<(Place, Seq<char>, Seq<Place>)>,
    pub confirm_batch_delete: Option<(nat, Seq<Place>)>,
    pub query: Seq<char>,
    pub applied: Seq<char>,
    pub focused: Option<Place>,
    pub last_path: Option<Place>,
    pub view: ViewMode,
    pub zoom: Option<Place>,
    pub disk: Option<(u64, u64)>,
    pub is_volume: bool,
    pub filter: Option<FileCategory>,
    pub stats: Option<Seq<(FileCategory, u64, usize)>>,
    pub show_hidden: bool,
    pub last_scan: LastScan,
    pub show_categories: bool,
    pub scroll: bool,
    pub rows: Seq<Row>,
    pub rows_dirty: bool,
    pub treemap_dirty: bool,
    pub selected: Seq<Place>,
    pub anchor: Option<Place>,
    pub groups: Set<Parts>,
    pub deleting: bool,
    pub delete_done: nat,
    pub delete_total: nat,
}

/// A path that may be missing, and how it is written.
pub open spec fn maybe_place(path: Option<NodePath>) -> Option<Place> {
    match path {
        Some(path) => Some(path.place()),
        None => None,
    }
}

/// A text that may be missing.
pub open spec fn maybe_text(text: Option<String>) -> Option<Seq<char>> {
    match text {
        Some(text) => Some(text@),
        None => None,
    }
}

/// A deletion that waits for a confirmation, as a mathematical value.
pub open spec fn maybe_pending(pending: Option<PendingDelete>) -> Option<
    (Place, Seq<char>, Seq<Place>),
> {
    match pending {
        Some(pending) => Some(
            (pending.path.place(), pending.prompt@, path::places(pending.targets@)),
        ),
        None => None,
    }
}

/// A deletion of the selected rows, as a mathematical value.
pub open spec fn maybe_batch(pending: Option<PendingBatchDelete>) -> Option<(nat, Seq<Place>)> {
    match pending {
        Some(pending) => Some((pending.item_count as nat, path::places(pending.targets@))),
        None => None,
    }
}

/// A tree that may be missing.
pub open spec fn maybe_tree(tree: Option<FileNode>) -> Option<Tree> {
    match tree {
        Some(tree) => Some(tree@),
        None => None,
    }
}

/// Totals that may be missing.
pub open spec fn maybe_stats(stats: Option<CategoryStats>) -> Option<
    Seq<(FileCategory, u64, usize)>,
> {
    match stats {
        Some(stats) => Some(stats.entries@),
        None => None,
    }
}

impl View for Session {
    type V = State;

    open spec fn view(&self) -> State {
        State {
            tree: maybe_tree(self.tree),
            scanning: self.scanning,
            scan_path: maybe_place(self.scan_path),
            error: maybe_text(self.error),
            confirm_delete: maybe_pending(self.confirm_delete),
            confirm_batch_delete: maybe_batch(self.confirm_batch_delete),
            query: self.search_query@,
            applied: self.applied_search@,
            focused: maybe_place(self.focused_path),
            last_path: maybe_place(self.last_scan_path),
            view: self.view_mode,
            zoom: maybe_place(self.treemap_zoom),
            disk: self.scan_disk_info,
            is_volume: self.scan_is_volume,
            filter: self.category_filter,
            stats: maybe_stats(self.category_stats),
            show_hidden: self.show_hidden,
            last_scan: self.last_scan,
            show_categories: self.show_categories,
            scroll: self.tree_scroll_to_focus,
            rows: ui::row_views(self.cached_rows@),
            rows_dirty: self.rows_dirty,
            treemap_dirty: self.treemap_dirty,
            selected: self.selected_paths.places(),
            anchor: maybe_place(self.selection_anchor),
            groups: self.expanded_file_groups@,
            deleting: self.deleter.running(),
            delete_done: self.deleter.finished(),
            delete_total: self.deleter.size(),
        }
    }
}

/// Whether the tree is sound, where there is one.
pub open spec fn valid(state: State) -> bool {
    match state.tree {
        Some(tree) => shape::sound(tree),
        None => true,
    }
}

/// What the rows show of the tree.
pub open spec fn shown_rows(state: State) -> Seq<Row> {
    match state.tree {
        Some(tree) => ui::view_rows(
            tree,
            ui::Shown {
                filter: state.applied,
                category: state.filter,
                show_hidden: state.show_hidden,
                text_cache: if state.applied.len() > 0 {
                    Some(matching::marked(tree, Wanted::Text(state.applied)))
                } else {
                    None
                },
                cat_cache: match state.filter {
                    Some(cat) => Some(matching::marked(tree, Wanted::Category(cat))),
                    None => None,
                },
                groups: Some(state.groups),
            },
        ),
        None => Seq::empty(),
    }
}

/// The state with the rows brought up to date.
pub open spec fn refreshed(state: State) -> State {
    if state.rows_dirty {
        State { rows: shown_rows(state), rows_dirty: false, ..state }
    } else {
        state
    }
}

/// The state with the rows and the treemap marked as out of date.
pub open spec fn dirtied(state: State) -> State {
    State { rows_dirty: true, treemap_dirty: true, ..state }
}

/// The first row at `path` from `from` on; the number of rows where there is
/// none.
pub open spec fn row_index(rows: Seq<Row>, path: Parts, from: int) -> int
    decreases rows.len() - from,
{
    if from >= rows.len() {
        rows.len() as int
    } else if rows[from].path == path {
        from
    } else {
        row_index(rows, path, from + 1)
    }
}

/// The state with the focus moved to `path`, nothing selected, and the view
/// scrolled there.
pub open spec fn moved_to(state: State, path: Place) -> State {
    State { focused: Some(path), selected: Seq::empty(), scroll: true, ..state }
}

/// The state after the arrow up or down. Without a focus the first row gets
/// it; at either end, and on a path without a row, it stays.
pub open spec fn stepped(state: State, up: bool) -> State {
    if state.rows.len() == 0 {
        state
    } else {
        let focused = match state.focused {
            None => Some(ui::row_place(state.rows[0])),
            Some(path) => {
                let i = row_index(state.rows, path.parts, 0);
                if i >= state.rows.len() {
                    Some(path)
                } else if up {
                    Some(
                        ui::row_place(
                            state.rows[if i > 0 {
                                i - 1
                            } else {
                                i
                            }],
                        ),
                    )
                } else {
                    Some(
                        ui::row_place(
                            state.rows[if i + 1 < state.rows.len() {
                                i + 1
                            } else {
                                i
                            }],
                        ),
                    )
                }
            },
        };
        State { focused, selected: Seq::empty(), scroll: true, ..state }
    }
}

/// The state with the focus on the row below that of `path`, where there is
/// one.
pub open spec fn entered(state: State, path: Parts) -> State {
    let i = row_index(state.rows, path, 0);
    if i + 1 < state.rows.len() {
        moved_to(state, ui::row_place(state.rows[i + 1]))
    } else {
        state
    }
}

/// The tree with the display of the node at `target` changed.
pub open spec fn redisplayed(tree: Tree, target: Parts, change: Change) -> Tree {
    navigate::changed(tree, path::parse_parts(tree.name), target, change).0
}

/// The state after the arrow left on the row of a group: an open group closes;
/// from a closed one the focus moves to the directory.
pub open spec fn group_left(state: State, dir: Place) -> State {
    if state.groups.contains(dir.parts) {
        dirtied(State { groups: state.groups.remove(dir.parts), ..state })
    } else {
        moved_to(state, dir)
    }
}

/// The state after the arrow right on the row of a group at `path`: a closed
/// group opens; in an open one the focus moves to the first file.
pub open spec fn group_right(state: State, path: Parts, dir: Parts) -> State {
    if state.groups.contains(dir) {
        entered(state, path)
    } else {
        dirtied(State { groups: state.groups.insert(dir), ..state })
    }
}

/// The state after the arrow left on the row of a node: an open directory
/// closes; else the focus moves to the directory that holds the node.
pub open spec fn node_left(state: State, tree: Tree, path: Parts, node: Tree) -> State {
    if node.dir && node.expanded {
        dirtied(State { tree: Some(redisplayed(tree, path, Change::Show(false))), ..state })
    } else {
        match navigate::parent_of(tree, path::parse_parts(tree.name), path) {
            Some(parent) => moved_to(state, place_above(tree, path, parent)),
            None => state,
        }
    }
}

/// The place of the directory at `parent` on the way to `path`: the name of the tree
/// extended by the components that lead there.
pub open spec fn place_above(tree: Tree, path: Parts, parent: Parts) -> Place {
    let top = path::parse_parts(tree.name).len() as int;
    Place { parts: parent, text: path::led(tree.name, path, top, parent.len() as int) }
}

/// The state after the arrow right on the row of a node: a closed directory
/// with entries opens; in an open one the focus moves to the first entry.
pub open spec fn node_right(state: State, tree: Tree, path: Parts, node: Tree) -> State {
    if node.dir && !node.expanded && node.kids.len() > 0 {
        dirtied(State { tree: Some(redisplayed(tree, path, Change::Show(true))), ..state })
    } else if node.dir && node.expanded {
        entered(state, path)
    } else {
        state
    }
}

/// The state after the arrow left or right.
pub open spec fn turned(state: State, left: bool) -> State {
    match state.focused {
        None => state,
        Some(at) => if targets::is_group(state.rows, at.parts) {
            match path::parent_place(at) {
                Some(dir) => if left {
                    group_left(state, dir)
                } else {
                    group_right(state, at.parts, dir.parts)
                },
                None => state,
            }
        } else {
            let path = at.parts;
            match state.tree {
                None => state,
                Some(tree) => match navigate::lookup(tree, path::parse_parts(tree.name), path) {
                    None => state,
                    Some(node) => if left {
                        node_left(state, tree, path, node)
                    } else {
                        node_right(state, tree, path, node)
                    },
                },
            }
        },
    }
}

/// The state after the space bar: the focused directory opens or closes.
pub open spec fn spaced(state: State) -> State {
    match (state.focused, state.tree) {
        (Some(path), Some(tree)) => dirtied(
            State { tree: Some(redisplayed(tree, path.parts, Change::Toggle)), ..state },
        ),
        _ => state,
    }
}

/// What deleting the row at `path` deletes.
pub open spec fn targets_of(state: State, path: Place) -> Seq<Place> {
    targets::deletion_targets(state.rows, state.tree, path, state.show_hidden)
}

/// What deleting the selected rows deletes.
pub open spec fn selected_targets(state: State) -> Seq<Place> {
    targets::first_seen(
        targets::all_targets(state.rows, state.tree, state.selected, state.show_hidden),
    )
}

/// The places without one path.
pub open spec fn without(places: Seq<Place>, path: Parts) -> Seq<Place> {
    places.filter(|p: Place| p.parts != path)
}

/// Whether a path is among places.
pub open spec fn among(places: Seq<Place>, path: Parts) -> bool {
    path::parts_of(places).contains(path)
}

/// The state with a deletion of `n` paths begun, unless there is none or one
/// is running.
pub open spec fn begun(state: State, n: nat) -> State {
    if n > 0 && !state.deleting {
        State { deleting: true, delete_done: 0, delete_total: n, ..state }
    } else {
        state
    }
}

/// Whether `job` is what `begun` begins with these paths.
pub open spec fn is_job(
    job: Option<DeleteJob>,
    state: State,
    paths: Seq<Place>,
    use_trash: bool,
) -> bool {
    match job {
        Some(job) => paths.len() > 0 && !state.deleting && path::places(job.paths@) == paths
            && job.use_trash == use_trash,
        None => paths.len() == 0 || state.deleting,
    }
}

/// The question before the row at `path` is deleted for good.
pub open spec fn question(state: State, path: Place) -> Seq<char> {
    if targets::is_group(state.rows, path.parts) {
        let dir = match path::parent_place(path) {
            Some(dir) => dir,
            None => path,
        };
        "Permanently delete "@ + text::decimal(targets_of(state, path).len())
            + " files in\n"@ + dir.text
    } else {
        "Permanently delete?\n"@ + path.text
    }
}

/// The question before the selected rows are deleted for good.
pub open spec fn batch_question(n: nat) -> Seq<char> {
    "Permanently delete "@ + text::decimal(n) + " selected item(s)? This cannot be undone."@
}

/// The places of the rows from `lo` to `hi` whose path was not there before, in
/// order.
pub open spec fn range_paths(rows: Seq<Row>, lo: int, hi: int) -> Seq<Place>
    decreases hi - lo + 1,
{
    if lo > hi {
        Seq::empty()
    } else {
        let before = range_paths(rows, lo, hi - 1);
        if among(before, rows[hi].path) {
            before
        } else {
            before.push(ui::row_place(rows[hi]))
        }
    }
}

/// The state after a click on the row at `path`. With shift, the rows from the
/// anchor to it are selected; with the command key, its selection is turned
/// round; else it is the only one.
pub open spec fn clicked(state: State, path: Place, shift: bool, toggle: bool) -> State {
    let alone = State { selected: seq![path], anchor: Some(path), ..state };
    if shift {
        match state.anchor {
            None => alone,
            Some(anchor) => {
                let a = row_index(state.rows, anchor.parts, 0);
                let b = row_index(state.rows, path.parts, 0);
                if a < state.rows.len() && b < state.rows.len() {
                    State {
                        selected: if a <= b {
                            range_paths(state.rows, a, b)
                        } else {
                            range_paths(state.rows, b, a)
                        },
                        ..state
                    }
                } else {
                    state
                }
            },
        }
    } else if toggle {
        State {
            selected: if among(state.selected, path.parts) {
                without(state.selected, path.parts)
            } else {
                state.selected.push(path)
            },
            anchor: Some(path),
            ..state
        }
    } else {
        alone
    }
}

/// The first row at `path`.
fn find_row(rows: &Vec<CachedRow>, path: &NodePath) -> (found: Option<usize>)
    ensures
        match found {
            Some(i) => i < rows.len() && i == row_index(ui::row_views(rows@), path@, 0),
            None => row_index(ui::row_views(rows@), path@, 0) == rows@.len(),
        },
{
    let ghost views = ui::row_views(rows@);
    let mut i: usize = 0;
    while i < rows.len()
        invariant
            i <= rows@.len(),
            views == ui::row_views(rows@),
            row_index(views, path@, i as int) == row_index(views, path@, 0),
        decreases rows@.len() - i,
    {
        assert(views[i as int] == rows@[i as int]@);
        if rows[i].path.same(path) {
            return Some(i);
        }
        i += 1;
    }
    None
}

impl Session {
    /// The state at the start.
    pub fn new(last_scan_path: Option<NodePath>, show_hidden: bool) -> (session: Self)
        ensures
            session@ == (State {
                tree: None,
                scanning: false,
                scan_path: None,
                error: None,
                confirm_delete: None,
                confirm_batch_delete: None,
                query: Seq::empty(),
                applied: Seq::empty(),
                focused: None,
                last_path: maybe_place(last_scan_path),
                view: ViewMode::Tree,
                zoom: None,
                disk: None,
                is_volume: false,
                filter: None,
                stats: None,
                show_hidden,
                last_scan: LastScan {
                    file_count: 0,
                    total_size: 0,
                    duration: None,
                    fallback_count: 0,
                    access_denied_fallback_count: 0,
                    bulk_scan_fallback_count: 0,
                },
                show_categories: false,
                scroll: false,
                rows: Seq::empty(),
                rows_dirty: true,
                treemap_dirty: true,
                selected: Seq::empty(),
                anchor: None,
                groups: Set::empty(),
                deleting: false,
                delete_done: 0,
                delete_total: 0,
            }),
            valid(session@),
    {
        let session = Session {
            tree: None,
            scanning: false,
            scan_path: None,
            error: None,
            confirm_delete: None,
            confirm_batch_delete: None,
            search_query: String::new(),
            applied_search: String::new(),
            focused_path: None,
            last_scan_path,
            view_mode: ViewMode::Tree,
            treemap_zoom: None,
            scan_disk_info: None,
            scan_is_volume: false,
            category_filter: None,
            category_stats: None,
            show_hidden,
            last_scan: LastScan {
                file_count: 0,
                total_size: 0,
                duration: None,
                fallback_count: 0,
                access_denied_fallback_count: 0,
                bulk_scan_fallback_count: 0,
            },
            show_categories: false,
            tree_scroll_to_focus: false,
            cached_rows: Vec::new(),
            rows_dirty: true,
            treemap_dirty: true,
            selected_paths: PathSet::new(),
            selection_anchor: None,
            expanded_file_groups: PathSet::new(),
            deleter: BackgroundDeleter::default(),
        };
        assert(session@.rows =~= Seq::<Row>::empty());
        session
    }

    /// Mark both tree-view and treemap caches as needing rebuild.
    pub fn mark_dirty(&mut self)
        ensures
            final(self)@ == dirtied(old(self)@),
    {
        self.rows_dirty = true;
        self.treemap_dirty = true;
    }

    /// Brings the rows up to date.
    pub fn rebuild_rows_if_dirty(&mut self)
        requires
            valid(old(self)@),
        ensures
            final(self)@ == refreshed(old(self)@),
    {
        if !self.rows_dirty {
            return;
        }
        self.cached_rows = Vec::new();
        if let Some(tree) = &self.tree {
            let text_cache = if self.applied_search.as_str().is_empty() {
                None
            } else {
                Some(build_text_match_cache(tree, self.applied_search.as_str()))
            };
            let cat_cache = match self.category_filter {
                Some(cat) => Some(build_category_match_cache(tree, cat)),
                None => None,
            };
            proof {
                shape::lemma_exact_sums_fit(tree@);
            }
            let rows = collect_cached_rows(
                tree,
                self.applied_search.as_str(),
                self.category_filter,
                self.show_hidden,
                text_cache.as_ref(),
                cat_cache.as_ref(),
                Some(&self.expanded_file_groups),
            );
            self.cached_rows = rows;
        }
        self.rows_dirty = false;
        proof {
            assert(self@.rows =~= shown_rows(old(self)@));
        }
    }

    /// Moves the focus one row up or down.
    pub fn step_focus(&mut self, up: bool)
        ensures
            final(self)@ == stepped(old(self)@, up),
    {
        let n: usize = self.cached_rows.len();
        assert(self@.rows.len() == n);
        if n == 0 {
            return;
        }
        let place = match &self.focused_path {
            None => Some(0),
            Some(focused) => match find_row(&self.cached_rows, focused) {
                Some(i) => if up {
                    Some(i.saturating_sub(1))
                } else if i + 1 < n {
                    Some(i + 1)
                } else {
                    Some(i)
                },
                None => None,
            },
        };
        if let Some(i) = place {
            assert(self@.rows[i as int] == self.cached_rows@[i as int]@);
            let path = self.cached_rows[i].path.clone();
            self.focused_path = Some(path);
        }
        self.selected_paths.clear();
        self.tree_scroll_to_focus = true;
        assert(self@ =~= stepped(old(self)@, up));
    }

    /// Moves the focus to `path`, with nothing selected.
    fn move_to(&mut self, path: NodePath)
        ensures
            final(self)@ == moved_to(old(self)@, path.place()),
    {
        self.focused_path = Some(path);
        self.selected_paths.clear();
        self.tree_scroll_to_focus = true;
    }

    /// Moves the focus to the row below that of `path`, where there is one.
    fn enter(&mut self, path: &NodePath)
        ensures
            final(self)@ == entered(old(self)@, path@),
    {
        assert(self@.rows.len() == self.cached_rows@.len());
        if let Some(i) = find_row(&self.cached_rows, path) {
            if i + 1 < self.cached_rows.len() {
                assert(self@.rows[i + 1] == self.cached_rows@[i + 1]@);
                let below = self.cached_rows[i + 1].path.clone();
                self.move_to(below);
            }
        }
    }

    /// The arrow left or right.
    pub fn turn_focus(&mut self, left: bool)
        requires
            valid(old(self)@),
        ensures
            final(self)@ == turned(old(self)@, left),
            valid(final(self)@),
    {
        let path = match &self.focused_path {
            Some(path) => path.clone(),
            None => {
                return;
            },
        };
        if row_is_file_group(self.cached_rows.as_slice(), &path) {
            if let Some(dir) = path.parent() {
                let open: bool = self.expanded_file_groups.contains(&dir);
                if left {
                    if open {
                        self.expanded_file_groups.remove(&dir);
                        self.mark_dirty();
                    } else {
                        self.move_to(dir);
                    }
                } else if open {
                    self.enter(&path);
                } else {
                    self.expanded_file_groups.insert(&dir);
                    self.mark_dirty();
                }
            }
            return;
        }
        let found = match &self.tree {
            Some(tree) => navigate::find_node_info(tree, &path),
            None => None,
        };
        let (is_dir, expanded, has_children) = match found {
            Some(info) => info,
            None => {
                return;
            },
        };
        if left {
            if is_dir && expanded {
                self.display(&path, Change::Show(false));
                self.mark_dirty();
            } else {
                let parent = match &self.tree {
                    Some(tree) => navigate::find_parent_path(tree, &path),
                    None => None,
                };
                if let Some(parent) = parent {
                    self.move_to(parent);
                }
            }
        } else if is_dir && !expanded && has_children {
            self.display(&path, Change::Show(true));
            self.mark_dirty();
        } else if is_dir && expanded {
            self.enter(&path);
        }
    }

    /// Changes the display of the node at `path`.
    fn display(&mut self, path: &NodePath, change: Change)
        requires
            valid(old(self)@),
        ensures
            final(self)@ == (State {
                tree: match old(self)@.tree {
                    Some(tree) => Some(redisplayed(tree, path@, change)),
                    None => None,
                },
                ..old(self)@
            }),
            valid(final(self)@),
    {
        let tree = self.tree.take();
        if let Some(mut tree) = tree {
            proof {
                shape::lemma_changed_sound(
                    tree@,
                    path::parse_parts(tree@.name),
                    path@,
                    change,
                );
            }
            match change {
                Change::Toggle => {
                    navigate::toggle_expand(&mut tree, path);
                },
                Change::Show(expanded) => {
                    navigate::set_expanded(&mut tree, path, expanded);
                },
            }
            self.tree = Some(tree);
        }
    }

    /// The space bar.
    pub fn press_space(&mut self)
        requires
            valid(old(self)@),
        ensures
            final(self)@ == spaced(old(self)@),
            valid(final(self)@),
    {
        let path = match &self.focused_path {
            Some(path) => path.clone(),
            None => {
                return;
            },
        };
        if self.tree.is_some() {
            self.display(&path, Change::Toggle);
            self.mark_dirty();
        }
    }

    /// Expand one tree-row path into the real paths it represents.
    pub fn deletion_targets(&self, path: &NodePath) -> (found: Vec<NodePath>)
        ensures
            path::places(found@) == targets_of(self@, path.place()),
    {
        resolve_deletion_targets(
            self.cached_rows.as_slice(),
            self.tree.as_ref(),
            path,
            self.show_hidden,
        )
    }

    /// Begins a deletion, where there is something to delete and none is
    /// running.
    fn begin_delete(&mut self, paths: Vec<NodePath>, use_trash: bool) -> (job: Option<DeleteJob>)
        ensures
            final(self)@ == begun(old(self)@, paths@.len()),
            is_job(job, old(self)@, path::places(paths@), use_trash),
    {
        assert(path::places(paths@).len() == paths@.len());
        self.deleter.start(paths, use_trash)
    }

    /// Moves what the row at `path` stands for to the trash.
    pub fn trash(&mut self, path: &NodePath) -> (job: Option<DeleteJob>)
        ensures
            ({
                let found = targets_of(old(self)@, path.place());
                let rest = State {
                    selected: without(old(self)@.selected, path@),
                    ..old(self)@
                };
                &&& final(self)@ == begun(rest, found.len())
                &&& is_job(job, old(self)@, found, true)
            }),
    {
        let found = self.deletion_targets(path);
        assert(path::places(found@).len() == found@.len());
        self.selected_paths.remove(path);
        proof {
            assert(self@.selected =~= without(old(self)@.selected, path@));
        }
        self.begin_delete(found, true)
    }

    /// The delete key: moves what the focused row stands for to the trash.
    pub fn press_delete(&mut self) -> (job: Option<DeleteJob>)
        ensures
            match old(self)@.focused {
                Some(path) => {
                    let found = targets_of(old(self)@, path);
                    let rest = State {
                        selected: without(old(self)@.selected, path.parts),
                        focused: None,
                        ..old(self)@
                    };
                    &&& final(self)@ == begun(rest, found.len())
                    &&& is_job(job, old(self)@, found, true)
                },
                None => final(self)@ == old(self)@ && job is None,
            },
    {
        let path = match &self.focused_path {
            Some(path) => path.clone(),
            None => {
                return None;
            },
        };
        let job = self.trash(&path);
        self.focused_path = None;
        job
    }

    /// Moves what the selected rows stand for to the trash. Nothing stays
    /// selected.
    pub fn batch_trash_selected(&mut self) -> (job: Option<DeleteJob>)
        ensures
            ({
                let found = selected_targets(old(self)@);
                let rest = State { selected: Seq::empty(), ..old(self)@ };
                &&& final(self)@ == begun(rest, found.len())
                &&& is_job(job, old(self)@, found, true)
            }),
    {
        let found = self.batch_targets();
        assert(path::places(found@).len() == found@.len());
        self.selected_paths.clear();
        self.begin_delete(found, true)
    }

    /// What deleting the selected rows deletes.
    pub fn batch_targets(&self) -> (found: Vec<NodePath>)
        ensures
            path::places(found@) == selected_targets(self@),
    {
        let members = self.selected_paths.members();
        let mut paths: Vec<NodePath> = Vec::new();
        let mut i: usize = 0;
        let ghost order = path::places(members@);
        assert(path::places(paths@) =~= order.take(0));
        while i < members.len()
            invariant
                i <= members@.len(),
                order == path::places(members@),
                path::places(paths@) == order.take(i as int),
            decreases members@.len() - i,
        {
            assert(order[i as int] == members@[i as int].place());
            let ghost before = path::places(paths@);
            let member = members[i].clone();
            paths.push(member);
            i += 1;
            assert(path::places(paths@) =~= before.push(member.place()));
            assert(path::places(paths@) =~= order.take(i as int));
        }
        assert(order.take(i as int) =~= order);
        resolve_batch_targets(
            self.cached_rows.as_slice(),
            self.tree.as_ref(),
            paths,
            self.show_hidden,
        )
    }

    /// Asks whether to delete what the row at `path` stands for.
    pub fn ask_delete(&mut self, path: &NodePath)
        ensures
            final(self)@ == (State {
                confirm_delete: Some(
                    (
                        path.place(),
                        question(old(self)@, path.place()),
                        targets_of(old(self)@, path.place()),
                    ),
                ),
                ..old(self)@
            }),
    {
        let found = self.deletion_targets(path);
        let mut prompt = String::new();
        assert(path::places(found@).len() == found@.len());
        if row_is_file_group(self.cached_rows.as_slice(), path) {
            prompt.append("Permanently delete ");
            push_decimal(&mut prompt, found.len() as u64);
            prompt.append(" files in\n");
            match path.parent() {
                Some(dir) => {
                    prompt.append(dir.to_text().as_str());
                },
                None => {
                    prompt.append(path.to_text().as_str());
                },
            }
        } else {
            prompt.append("Permanently delete?\n");
            prompt.append(path.to_text().as_str());
        }
        assert(prompt@ =~= question(self@, path.place()));
        self.confirm_delete = Some(PendingDelete { path: path.clone(), prompt, targets: found });
    }

    /// The delete key with shift: asks whether to delete the focused row.
    pub fn press_shift_delete(&mut self)
        ensures
            final(self)@ == (match old(self)@.focused {
                Some(path) => State {
                    confirm_delete: Some(
                        (path, question(old(self)@, path), targets_of(old(self)@, path)),
                    ),
                    ..old(self)@
                },
                None => old(self)@,
            }),
    {
        let path = match &self.focused_path {
            Some(path) => path.clone(),
            None => {
                return;
            },
        };
        self.ask_delete(&path);
    }

    /// Asks whether to delete what the selected rows stand for.
    pub fn ask_delete_selected(&mut self)
        ensures
            final(self)@ == (State {
                confirm_batch_delete: Some(
                    (old(self)@.selected.len(), selected_targets(old(self)@)),
                ),
                ..old(self)@
            }),
    {
        let found = self.batch_targets();
        let item_count: usize = self.selected_paths.len();
        self.confirm_batch_delete = Some(PendingBatchDelete { item_count, targets: found });
    }

    /// The answer to the question about a row. With a yes it deletes what was
    /// found when the question was asked.
    pub fn answer_delete(&mut self, yes: bool) -> (job: Option<DeleteJob>)
        ensures
            match old(self)@.confirm_delete {
                Some((path, _, found)) if yes => {
                    let rest = State {
                        confirm_delete: None,
                        selected: without(old(self)@.selected, path.parts),
                        ..old(self)@
                    };
                    &&& final(self)@ == begun(rest, found.len())
                    &&& is_job(job, old(self)@, found, false)
                },
                _ => {
                    &&& final(self)@ == (State { confirm_delete: None, ..old(self)@ })
                    &&& job is None
                },
            },
    {
        let pending = self.confirm_delete.take();
        match pending {
            Some(pending) => {
                if yes {
                    assert(path::places(pending.targets@).len() == pending.targets@.len());
                    self.selected_paths.remove(&pending.path);
                    proof {
                        assert(self@.selected =~= without(old(self)@.selected, pending.path@));
                    }
                    self.begin_delete(pending.targets, false)
                } else {
                    None
                }
            },
            None => None,
        }
    }

    /// The answer to the question about the selected rows. With a yes it
    /// deletes what was found when the question was asked.
    pub fn answer_batch_delete(&mut self, yes: bool) -> (job: Option<DeleteJob>)
        ensures
            match old(self)@.confirm_batch_delete {
                Some((_, found)) if yes => {
                    let rest = State {
                        confirm_batch_delete: None,
                        selected: Seq::empty(),
                        ..old(self)@
                    };
                    &&& final(self)@ == begun(rest, found.len())
                    &&& is_job(job, old(self)@, found, false)
                },
                _ => {
                    &&& final(self)@ == (State { confirm_batch_delete: None, ..old(self)@ })
                    &&& job is None
                },
            },
    {
        let pending = self.confirm_batch_delete.take();
        match pending {
            Some(pending) => {
                if yes {
                    assert(path::places(pending.targets@).len() == pending.targets@.len());
                    self.selected_paths.clear();
                    self.begin_delete(pending.targets, false)
                } else {
                    None
                }
            },
            None => None,
        }
    }

    /// A click on the row at `path`.
    pub fn click(&mut self, path: &NodePath, shift: bool, toggle: bool)
        ensures
            final(self)@ == clicked(old(self)@, path.place(), shift, toggle),
    {
        if shift {
            if let Some(anchor) = &self.selection_anchor {
                let from = find_row(&self.cached_rows, anchor);
                let to = find_row(&self.cached_rows, path);
                if let (Some(a), Some(b)) = (from, to) {
                    if a <= b {
                        self.select_range(a, b);
                    } else {
                        self.select_range(b, a);
                    }
                }
                return;
            }
        } else if toggle {
            if !self.selected_paths.remove(path) {
                proof {
                    reveal(Seq::filter);
                    lemma_without_absent(old(self)@.selected, path@);
                }
                self.selected_paths.insert(path);
            }
            self.selection_anchor = Some(path.clone());
            assert(self@ =~= clicked(old(self)@, path.place(), shift, toggle));
            return;
        }
        self.selected_paths.clear();
        self.selected_paths.insert(path);
        self.selection_anchor = Some(path.clone());
        proof {
            assert(self@.selected =~= seq![path.place()]);
            assert(self@ =~= clicked(old(self)@, path.place(), shift, toggle));
        }
    }

    /// Selects the rows from `lo` to `hi` and no others.
    fn select_range(&mut self, lo: usize, hi: usize)
        requires
            lo <= hi < old(self).cached_rows.len(),
        ensures
            final(self)@ == (State {
                selected: range_paths(old(self)@.rows, lo as int, hi as int),
                ..old(self)@
            }),
    {
        let ghost rows = self@.rows;
        let mut chosen = PathSet::new();
        let mut i: usize = lo;
        while i <= hi
            invariant
                lo <= i <= hi + 1,
                hi < self.cached_rows.len(),
                self@ == old(self)@,
                rows == self@.rows,
                chosen.places() == range_paths(rows, lo as int, i - 1),
            decreases hi + 1 - i,
        {
            assert(rows[i as int] == self.cached_rows@[i as int]@);
            chosen.insert(&self.cached_rows[i].path);
            i += 1;
        }
        self.selected_paths = chosen;
    }

    /// Focuses the row at `path`.
    pub fn focus(&mut self, path: &NodePath)
        ensures
            final(self)@ == (State { focused: Some(path.place()), ..old(self)@ }),
    {
        self.focused_path = Some(path.clone());
    }
}

proof fn lemma_without_absent(places: Seq<Place>, path: Parts)
    requires
        !among(places, path),
    ensures
        without(places, path) == places,
    decreases places.len(),
{
    reveal(Seq::filter);
    if places.len() > 0 {
        let front = places.drop_last();
        let (parts, shorter) = (path::parts_of(places), path::parts_of(front));
        assert forall|i: int| 0 <= i < shorter.len() implies shorter[i] != path by {
            assert(parts[i] == shorter[i]);
            assert(parts.contains(parts[i]));
        }
        lemma_without_absent(front, path);
        assert(parts[parts.len() - 1] != path) by {
            assert(parts.contains(parts[parts.len() - 1]));
        }
        assert(places =~= front.push(places.last()));
    }
}

proof fn lemma_among_push(places: Seq<Place>, last: Place, other: Parts)
    ensures
        among(places.push(last), other) == (among(places, other) || last.parts == other),
{
    let parts = path::parts_of(places);
    let longer = path::parts_of(places.push(last));
    assert(longer =~= parts.push(last.parts));
    if parts.contains(other) {
        assert(longer[parts.index_of(other)] == other);
    }
    assert(longer[parts.len() as int] == last.parts);
    if longer.contains(other) {
        let i = longer.index_of(other);
        if i < parts.len() {
            assert(parts[i] == other);
        }
    }
}

proof fn lemma_without(places: Seq<Place>, path: Parts, other: Parts)
    ensures
        among(without(places, path), other) == (among(places, other) && other != path),
    decreases places.len(),
{
    reveal(Seq::filter);
    if places.len() > 0 {
        let front = places.drop_last();
        let rest = without(front, path);
        lemma_without(front, path, other);
        assert(places =~= front.push(places.last()));
        lemma_among_push(front, places.last(), other);
        lemma_among_push(rest, places.last(), other);
    } else {
        assert(without(places, path) =~= places);
    }
}

/// A click alone selects the row and no other, and ranges begin there.
pub proof fn lemma_click_selects_one(state: State, path: Place)
    ensures
        clicked(state, path, false, false).selected == seq![path],
        clicked(state, path, false, false).anchor == Some(path),
{
}

/// A click with the command key changes the selection of its row and of no
/// other.
pub proof fn lemma_toggle_changes_one(state: State, path: Place, other: Parts)
    ensures
        ({
            let after = clicked(state, path, false, true).selected;
            &&& among(after, path.parts) == !among(state.selected, path.parts)
            &&& other != path.parts ==> among(after, other) == among(state.selected, other)
        }),
{
    if among(state.selected, path.parts) {
        lemma_without(state.selected, path.parts, path.parts);
        lemma_without(state.selected, path.parts, other);
    } else {
        lemma_among_push(state.selected, path, path.parts);
        lemma_among_push(state.selected, path, other);
    }
}

/// A second click with the command key takes back the first.
pub proof fn lemma_toggle_twice(state: State, path: Place)
    ensures
        path::parts_of(clicked(clicked(state, path, false, true), path, false, true).selected)
            .to_set() == path::parts_of(state.selected).to_set(),
{
    let once = clicked(state, path, false, true);
    let twice = clicked(once, path, false, true);
    assert forall|p: Parts| among(twice.selected, p) == among(state.selected, p) by {
        lemma_toggle_changes_one(state, path, p);
        lemma_toggle_changes_one(once, path, p);
    }
    let (after, before) = (path::parts_of(twice.selected), path::parts_of(state.selected));
    assert forall|p: Parts| after.to_set().contains(p) == before.to_set().contains(p) by {
        assert(among(twice.selected, p) == among(state.selected, p));
    }
    assert(after.to_set() =~= before.to_set());
}

proof fn lemma_range_paths(rows: Seq<Row>, lo: int, hi: int, path: Parts)
    requires
        0 <= lo,
        hi < rows.len(),
    ensures
        among(range_paths(rows, lo, hi), path) == (exists|i: int|
            lo <= i <= hi && (#[trigger] rows[i]).path == path),
        path::parts_of(range_paths(rows, lo, hi)).no_duplicates(),
    decreases hi - lo + 1,
{
    if lo <= hi {
        let places = range_paths(rows, lo, hi - 1);
        let before = path::parts_of(places);
        let all = path::parts_of(range_paths(rows, lo, hi));
        lemma_range_paths(rows, lo, hi - 1, path);
        lemma_range_paths(rows, lo, hi - 1, rows[hi].path);
        if !before.contains(rows[hi].path) {
            lemma_among_push(places, ui::row_place(rows[hi]), path);
            assert(all =~= before.push(rows[hi].path));
            assert forall|j: int, k: int| 0 <= j < k < all.len() implies all[j] != all[k] by {
                assert(all[j] == before[j]);
                if k < before.len() {
                    assert(all[k] == before[k]);
                } else {
                    assert(before.contains(before[j]));
                }
            }
        }
        if exists|i: int| lo <= i <= hi && (#[trigger] rows[i]).path == path {
            let i = choose|i: int| lo <= i <= hi && (#[trigger] rows[i]).path == path;
            if i < hi {
                assert(lo <= i <= hi - 1 && rows[i].path == path);
            }
        }
        if before.contains(path) {
            let i = choose|i: int| lo <= i <= hi - 1 && (#[trigger] rows[i]).path == path;
            assert(lo <= i <= hi && rows[i].path == path);
        }
        if rows[hi].path == path {
            assert(lo <= hi <= hi && rows[hi].path == path);
        }
    }
}

/// A click with shift selects the rows from the anchor to the clicked one, each
/// once, and no others. The anchor stays.
pub proof fn lemma_range_selects_between(state: State, path: Place, other: Parts)
    requires
        state.anchor is Some,
        row_index(state.rows, state.anchor->0.parts, 0) < state.rows.len(),
        row_index(state.rows, path.parts, 0) < state.rows.len(),
    ensures
        ({
            let after = clicked(state, path, true, false);
            let a = row_index(state.rows, state.anchor->0.parts, 0);
            let b = row_index(state.rows, path.parts, 0);
            &&& after.anchor == state.anchor
            &&& path::parts_of(after.selected).no_duplicates()
            &&& among(after.selected, other) == (exists|i: int|
                (a <= i <= b || b <= i <= a) && (#[trigger] state.rows[i]).path == other)
        }),
{
    let rows = state.rows;
    let a = row_index(rows, state.anchor->0.parts, 0);
    let b = row_index(rows, path.parts, 0);
    lemma_row_index(rows, state.anchor->0.parts, 0);
    lemma_row_index(rows, path.parts, 0);
    let (lo, hi) = if a <= b {
        (a, b)
    } else {
        (b, a)
    };
    lemma_range_paths(rows, lo, hi, other);
    if exists|i: int| (a <= i <= b || b <= i <= a) && (#[trigger] rows[i]).path == other {
        let i = choose|i: int|
            (a <= i <= b || b <= i <= a) && (#[trigger] rows[i]).path == other;
        assert(lo <= i <= hi && rows[i].path == other);
    }
    if exists|i: int| lo <= i <= hi && (#[trigger] rows[i]).path == other {
        let i = choose|i: int| lo <= i <= hi && (#[trigger] rows[i]).path == other;
        assert((a <= i <= b || b <= i <= a) && rows[i].path == other);
    }
}

proof fn lemma_row_index(rows: Seq<Row>, path: Parts, from: int)
    requires
        0 <= from <= rows.len(),
    ensures
        from <= row_index(rows, path, from) <= rows.len(),
        row_index(rows, path, from) < rows.len() ==> rows[row_index(rows, path, from)].path
            == path,
        forall|i: int|
            from <= i < row_index(rows, path, from) ==> (#[trigger] rows[i]).path != path,
    decreases rows.len() - from,
{
    if from < rows.len() && rows[from].path != path {
        lemma_row_index(rows, path, from + 1);
    }
}

/// No two rows have the same path.
pub open spec fn distinct_rows(rows: Seq<Row>) -> bool {
    forall|i: int, j: int|
        0 <= i < j < rows.len() ==> (#[trigger] rows[i]).path != (#[trigger] rows[j]).path
}

/// Where every row has its own path, a step down and a step up lead back; so do
/// a step up and a step down.
pub proof fn lemma_step_back(state: State, i: int, up: bool)
    requires
        distinct_rows(state.rows),
        0 <= i < state.rows.len(),
        state.focused == Some(ui::row_place(state.rows[i])),
        up ==> i > 0,
        !up ==> i + 1 < state.rows.len(),
    ensures
        stepped(stepped(state, up), !up).focused == state.focused,
{
    let rows = state.rows;
    let k = if up {
        i - 1
    } else {
        i + 1
    };
    lemma_row_index(rows, rows[i].path, 0);
    lemma_row_index(rows, rows[k].path, 0);
}

/// Moving the focus selects nothing.
pub proof fn lemma_step_deselects(state: State, up: bool)
    requires
        state.rows.len() > 0,
    ensures
        stepped(state, up).selected.len() == 0,
        stepped(state, up).focused is Some,
{
}

/// While a deletion runs no other begins.
pub proof fn lemma_one_deletion(state: State, n: nat, m: nat)
    requires
        n > 0,
    ensures
        begun(begun(state, n), m) == begun(state, n),
{
}

/// Rows that are up to date stay so.
pub proof fn lemma_refreshed_once(state: State)
    ensures
        refreshed(refreshed(state)) == refreshed(state),
        state.rows_dirty ==> refreshed(state).rows == shown_rows(refreshed(state)),
{
}

} // verus!
