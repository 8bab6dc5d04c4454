//! Further commands: scans, deletions that have ended, filters, and the actions
//! of the views.

use vstd::prelude::*;

use crate::categories;
use crate::categories::{compute_stats, CategoryStats, FileCategory};
use crate::config;
use crate::config::save_config;
use crate::deleter::{DeleteJob, DeleteResults, PollResult};
use crate::navigate;
use crate::navigate::Change;
use crate::path;
use crate::path::{NodePath, Place};
use crate::platform;
use crate::platform::{is_mounted, VolumeInfo};
use crate::scanner;
use crate::scanner::ScanProgress;
use crate::screenshot::ViewMode;
use crate::session;
use crate::session::{LastScan, Parts, Session, State};
use crate::shape;
use crate::text;
use crate::text::{owned, push_decimal};
use crate::tree;
use crate::tree::{auto_expand, FileNode, Tree};
use crate::tree_view;
use crate::tree_view::{TreeAction, Wish};

verus! {

/// The state once a scan of `path` has begun.
pub open spec fn scan_begun(
    state: State,
    path: Place,
    disk: Option<(u64, u64)>,
    volumes: Seq<platform::Volume>,
) -> State {
    State {
        last_path: Some(path),
        scanning: true,
        error: None,
        tree: None,
        selected: Seq::empty(),
        anchor: None,
        scan_path: Some(path),
        disk,
        is_volume: platform::mounted(volumes, path.parts),
        last_scan: LastScan {
            duration: None,
            fallback_count: 0,
            access_denied_fallback_count: 0,
            bulk_scan_fallback_count: 0,
            ..state.last_scan
        },
        ..state
    }
}

/// The state once a scan has ended with a tree and its totals. The large
/// directories of the first levels are shown.
pub open spec fn scan_ended(
    state: State,
    tree: Tree,
    stats: Seq<(FileCategory, u64, usize)>,
    progress: ScanProgress,
    duration: Option<(u64, u32)>,
) -> State {
    session::dirtied(
        State {
            stats: Some(stats),
            tree: Some(tree::auto_opened(tree, 2)),
            last_scan: LastScan {
                file_count: progress.file_count,
                total_size: progress.total_size,
                duration: match duration {
                    Some(duration) => Some(duration),
                    None => state.last_scan.duration,
                },
                fallback_count: progress.fallback_count,
                access_denied_fallback_count: progress.access_denied_fallback_count,
                bulk_scan_fallback_count: progress.bulk_scan_fallback_count,
            },
            scanning: false,
            filter: None,
            ..state
        },
    )
}

/// The tree without the node at `path`, where it has one.
pub open spec fn pruned(tree: Tree, path: Parts) -> Tree {
    match navigate::removed(tree, path::parse_parts(tree.name), path) {
        Some((rest, _)) => rest,
        None => tree,
    }
}

/// The state after one path was deleted, or could not be.
pub open spec fn deletion_noted(state: State, path: Parts, error: Option<Seq<char>>) -> State {
    match error {
        Some(message) => State { error: Some("Delete failed: "@ + message), ..state },
        None => match state.tree {
            Some(tree) => session::dirtied(State { tree: Some(pruned(tree, path)), ..state }),
            None => state,
        },
    }
}

/// Results of a deletion as mathematical values.
pub open spec fn result_views(results: Seq<(NodePath, Option<String>)>) -> Seq<
    (Parts, Option<Seq<char>>),
> {
    results.map_values(
        |result: (NodePath, Option<String>)| (result.0@, session::maybe_text(result.1)),
    )
}

/// Once a deletion has run: all of its paths are done.
pub open spec fn deletion_over(state: State) -> State {
    State { deleting: false, delete_done: state.delete_total, ..state }
}

/// The state after the first `n` results of a deletion.
pub open spec fn deletions_noted(
    state: State,
    results: Seq<(Parts, Option<Seq<char>>)>,
    n: nat,
) -> State
    decreases n,
{
    if n == 0 {
        state
    } else {
        let before = deletions_noted(state, results, (n - 1) as nat);
        deletion_noted(before, results[n - 1].0, results[n - 1].1)
    }
}

/// Whether one of the first `n` paths was deleted.
pub open spec fn some_deleted(results: Seq<(Parts, Option<Seq<char>>)>, n: nat) -> bool {
    exists|i: int| 0 <= i < n && (#[trigger] results[i]).1 is None
}

/// What an action of the tree view leads to outside the program's state.
pub enum Effect {
    Nothing,
    Delete(DeleteJob),
    Reveal(NodePath),
    Copy(String),
}

/// The state after an action of the tree view, but for those that open and
/// close.
pub open spec fn acted(state: State, wish: Wish) -> State {
    match wish {
        Wish::Click { path, shift, toggle } => session::clicked(state, path, shift, toggle),
        Wish::Focus(path) => State { focused: Some(path), ..state },
        Wish::Trash(path) => session::begun(
            State { selected: session::without(state.selected, path.parts), ..state },
            session::targets_of(state, path).len(),
        ),
        Wish::TrashSelected => session::begun(
            State { selected: Seq::empty(), ..state },
            session::selected_targets(state).len(),
        ),
        Wish::ConfirmDelete(path) => State {
            confirm_delete: Some(
                (path, session::question(state, path), session::targets_of(state, path)),
            ),
            ..state
        },
        Wish::ConfirmDeleteSelected => State {
            confirm_batch_delete: Some((state.selected.len(), session::selected_targets(state))),
            ..state
        },
        _ => state,
    }
}

/// Whether `effect` is what an action of the tree view leads to.
pub open spec fn is_effect(effect: Effect, state: State, wish: Wish) -> bool {
    let job = match effect {
        Effect::Delete(job) => Some(job),
        _ => None,
    };
    match wish {
        Wish::Trash(path) => (effect is Delete || effect is Nothing) && session::is_job(
            job,
            state,
            session::targets_of(state, path),
            true,
        ),
        Wish::TrashSelected => (effect is Delete || effect is Nothing) && session::is_job(
            job,
            state,
            session::selected_targets(state),
            true,
        ),
        Wish::RevealInFinder(path) => effect matches Effect::Reveal(shown) && shown.place()
            == path,
        Wish::CopyPath(path) => effect matches Effect::Copy(text) && text@ == path.text,
        _ => effect is Nothing,
    }
}

/// The state after an action that opens or closes, where there is a tree.
pub open spec fn opened_or_closed(state: State, wish: Wish) -> State {
    match (state.tree, wish) {
        (Some(tree), Wish::ToggleExpand(path)) => State {
            tree: Some(session::redisplayed(tree, path.parts, Change::Toggle)),
            rows_dirty: true,
            selected: Seq::empty(),
            anchor: None,
            ..state
        },
        (Some(_), Wish::ToggleFileGroup(path)) => State {
            groups: match path::parent_parts(path.parts) {
                Some(dir) => if state.groups.contains(dir) {
                    state.groups.remove(dir)
                } else {
                    state.groups.insert(dir)
                },
                None => state.groups,
            },
            rows_dirty: true,
            ..state
        },
        _ => state,
    }
}

/// The state after the first `n` actions, but for those that open and close.
pub open spec fn all_acted(state: State, wishes: Seq<Wish>, n: nat) -> State
    decreases n,
{
    if n == 0 {
        state
    } else {
        acted(all_acted(state, wishes, (n - 1) as nat), wishes[n - 1])
    }
}

/// The state after those of the first `n` actions that open and close.
pub open spec fn all_opened_or_closed(state: State, wishes: Seq<Wish>, n: nat) -> State
    decreases n,
{
    if n == 0 {
        state
    } else {
        opened_or_closed(all_opened_or_closed(state, wishes, (n - 1) as nat), wishes[n - 1])
    }
}

/// Whether two paths that may be missing are the same, however they are written.
pub open spec fn same_path(a: Option<Place>, b: Option<Place>) -> bool {
    match (a, b) {
        (Some(a), Some(b)) => a.parts == b.parts,
        (None, None) => true,
        _ => false,
    }
}

/// What the treemap of the directory at `path` zooms to: nothing where it is the root.
pub open spec fn zoom_on(tree: Tree, path: Place) -> Option<Place> {
    if path::parse_parts(tree.name) == path.parts {
        None
    } else {
        Some(path)
    }
}

/// The state once the treemap shows the directory at `path`.
pub open spec fn zoomed(state: State, path: Place) -> State {
    match state.tree {
        Some(tree) => if same_path(zoom_on(tree, path), state.zoom) {
            state
        } else {
            State { zoom: zoom_on(tree, path), treemap_dirty: true, ..state }
        },
        None => state,
    }
}

impl Session {
    /// Begins a scan of `path`. Gives out the document that remembers it.
    pub fn start_scan(
        &mut self,
        path: &NodePath,
        disk: Option<(u64, u64)>,
        volumes: &Vec<VolumeInfo>,
    ) -> (document: String)
        ensures
            final(self)@ == scan_begun(
                old(self)@,
                path.place(),
                disk,
                platform::volume_views(volumes@),
            ),
            session::valid(final(self)@),
            config::loaded(Some(document@)) == (
                Some(path.spelling()),
                old(self)@.show_hidden,
            ),
            config::loaded(Some(document@)).0 matches Some(text) && path::parse_parts(text)
                == path@,
    {
        let document = save_config(path.to_text().as_str(), self.show_hidden);
        self.last_scan_path = Some(path.clone());
        self.scanning = true;
        self.error = None;
        self.tree = None;
        self.selected_paths.clear();
        self.selection_anchor = None;
        self.scan_path = Some(path.clone());
        self.scan_disk_info = disk;
        self.scan_is_volume = is_mounted(volumes, path);
        self.last_scan = LastScan {
            file_count: self.last_scan.file_count,
            total_size: self.last_scan.total_size,
            duration: None,
            fallback_count: 0,
            access_denied_fallback_count: 0,
            bulk_scan_fallback_count: 0,
        };
        document
    }

    /// Gives up the running scan.
    pub fn cancel_scan(&mut self)
        ensures
            final(self)@ == (State { scanning: false, ..old(self)@ }),
    {
        self.scanning = false;
    }

    /// Takes the tree of a scan, and its totals.
    pub fn finish_scan(
        &mut self,
        tree: FileNode,
        stats: CategoryStats,
        progress: &ScanProgress,
        duration: Option<(u64, u32)>,
    )
        requires
            shape::sound(tree@),
        ensures
            final(self)@ == scan_ended(
                old(self)@,
                tree@,
                stats.entries@,
                *progress,
                duration,
            ),
            session::valid(final(self)@),
    {
        let mut tree = tree;
        proof {
            shape::lemma_auto_opened_sound(tree@, 2);
        }
        auto_expand(&mut tree, 0, 2);
        self.category_stats = Some(stats);
        self.tree = Some(tree);
        self.last_scan = LastScan {
            file_count: progress.file_count,
            total_size: progress.total_size,
            duration: match duration {
                Some(duration) => Some(duration),
                None => self.last_scan.duration,
            },
            fallback_count: progress.fallback_count,
            access_denied_fallback_count: progress.access_denied_fallback_count,
            bulk_scan_fallback_count: progress.bulk_scan_fallback_count,
        };
        self.scanning = false;
        self.category_filter = None;
        self.mark_dirty();
    }

    /// Takes what became of one path.
    fn note_deletion(&mut self, path: &NodePath, error: &Option<String>)
        requires
            session::valid(old(self)@),
        ensures
            final(self)@ == deletion_noted(
                old(self)@,
                path@,
                session::maybe_text(*error),
            ),
            session::valid(final(self)@),
    {
        match error {
            Some(message) => {
                let mut text = owned("Delete failed: ");
                text.append(message.as_str());
                self.error = Some(text);
            },
            None => {
                let tree = self.tree.take();
                if let Some(mut tree) = tree {
                    proof {
                        shape::lemma_removed_sound(
                            tree@,
                            path::parse_parts(tree@.name),
                            path@,
                        );
                    }
                    navigate::remove_node(&mut tree, path);
                    self.tree = Some(tree);
                    self.mark_dirty();
                }
            },
        }
    }

    /// Takes the results of a deletion, where they have arrived. True where
    /// something was deleted, so that the free space has to be asked again.
    pub fn poll_delete_completion(&mut self, arrived: Option<DeleteResults>) -> (freed: bool)
        requires
            session::valid(old(self)@),
        ensures
            session::valid(final(self)@),
            match arrived {
                Some(results) if old(self)@.deleting => {
                    let views = result_views(results@);
                    let idle = deletion_over(old(self)@);
                    &&& final(self)@ == deletions_noted(idle, views, views.len())
                    &&& freed == some_deleted(views, views.len())
                },
                _ => final(self)@ == old(self)@ && !freed,
            },
    {
        let results = match self.deleter.poll(arrived) {
            PollResult::Done(results) => results,
            PollResult::Pending => {
                return false;
            },
        };
        let ghost views = result_views(results@);
        let ghost idle = self@;
        assert(idle =~= deletion_over(old(self)@));
        let mut freed: bool = false;
        let mut i: usize = 0;
        while i < results.len()
            invariant
                i <= results@.len(),
                views == result_views(results@),
                session::valid(self@),
                self@ == deletions_noted(idle, views, i as nat),
                freed == some_deleted(views, i as nat),
            decreases results@.len() - i,
        {
            let (path, error) = &results[i];
            assert(views[i as int] == (path@, session::maybe_text(*error)));
            self.note_deletion(path, error);
            if error.is_none() {
                freed = true;
            }
            i += 1;
            proof {
                if views[i - 1].1 is None {
                    assert(some_deleted(views, i as nat));
                } else if some_deleted(views, i as nat) {
                    let k = choose|k: int| 0 <= k < i && (#[trigger] views[k]).1 is None;
                    assert(views[k].1 is None);
                } else if some_deleted(views, (i - 1) as nat) {
                    let k = choose|k: int| 0 <= k < i - 1 && (#[trigger] views[k]).1 is None;
                    assert(views[k].1 is None);
                }
            }
        }
        freed
    }

    /// Takes the space of the scanned file system.
    pub fn refresh_disk_info(&mut self, disk: Option<(u64, u64)>)
        ensures
            final(self)@ == (State {
                disk: if old(self)@.scan_path is Some {
                    disk
                } else {
                    old(self)@.disk
                },
                ..old(self)@
            }),
    {
        if self.scan_path.is_some() {
            self.scan_disk_info = disk;
        }
    }

    /// Shows the search text in the rows.
    pub fn apply_search(&mut self)
        ensures
            final(self)@ == (State {
                applied: old(self)@.query,
                rows_dirty: true,
                ..old(self)@
            }),
    {
        self.applied_search = self.search_query.clone();
        self.rows_dirty = true;
    }

    /// Shows or hides hidden entries. Gives out the document that remembers the
    /// choice, where there was a scan.
    pub fn toggle_hidden(&mut self) -> (document: Option<String>)
        requires
            session::valid(old(self)@),
        ensures
            final(self)@ == session::dirtied(
                State {
                    show_hidden: !old(self)@.show_hidden,
                    stats: match old(self)@.tree {
                        Some(tree) => Some(categories::stats_of(tree::files(tree))),
                        None => old(self)@.stats,
                    },
                    ..old(self)@
                },
            ),
            match (document, old(self)@.last_path) {
                (Some(document), Some(path)) => config::loaded(Some(document@)) == (
                    Some(path.text),
                    !old(self)@.show_hidden,
                ),
                (None, None) => true,
                _ => false,
            },
    {
        self.show_hidden = !self.show_hidden;
        self.mark_dirty();
        let document = match &self.last_scan_path {
            Some(path) => Some(save_config(path.to_text().as_str(), self.show_hidden)),
            None => None,
        };
        if let Some(tree) = &self.tree {
            proof {
                shape::lemma_sound_countable(tree@);
            }
            let stats = compute_stats(tree);
            self.category_stats = Some(stats);
        }
        document
    }

    /// Opens or closes the panel of file types. Closing it drops its filter.
    pub fn toggle_categories(&mut self)
        ensures
            final(self)@ == (if old(self)@.show_categories {
                session::dirtied(State { show_categories: false, filter: None, ..old(self)@ })
            } else {
                State { show_categories: true, ..old(self)@ }
            }),
    {
        self.show_categories = !self.show_categories;
        if !self.show_categories {
            self.category_filter = None;
            self.mark_dirty();
        }
    }

    /// Filters by a category, or no longer where it was the filter. None shows
    /// all files.
    pub fn choose_category(&mut self, chosen: Option<FileCategory>)
        ensures
            final(self)@ == session::dirtied(
                State {
                    filter: if chosen == old(self)@.filter {
                        None
                    } else {
                        chosen
                    },
                    ..old(self)@
                },
            ),
    {
        let same: bool = match (chosen, self.category_filter) {
            (Some(a), Some(b)) => a == b,
            (None, None) => true,
            _ => false,
        };
        self.category_filter = if same {
            None
        } else {
            chosen
        };
        self.mark_dirty();
    }

    /// Switches to another view.
    pub fn set_view(&mut self, mode: ViewMode)
        ensures
            final(self)@ == (State { view: mode, ..old(self)@ }),
    {
        self.view_mode = mode;
    }

    /// Shows the directory at `path` as a treemap. True where another was shown
    /// before.
    pub fn zoom_to(&mut self, path: &NodePath) -> (changed: bool)
        ensures
            final(self)@ == zoomed(old(self)@, path.place()),
            changed == (old(self)@.tree matches Some(tree) && !same_path(
                zoom_on(tree, path.place()),
                old(self)@.zoom,
            )),
    {
        let zoom = match &self.tree {
            Some(tree) => if NodePath::new(tree.name()).same(path) {
                None
            } else {
                Some(path.clone())
            },
            None => {
                return false;
            },
        };
        let same: bool = match (&zoom, &self.treemap_zoom) {
            (Some(a), Some(b)) => a.same(b),
            (None, None) => true,
            _ => false,
        };
        if same {
            return false;
        }
        self.treemap_zoom = zoom;
        self.treemap_dirty = true;
        true
    }

    /// Shows that something failed.
    pub fn report_error(&mut self, what: &str, error: &str)
        ensures
            final(self)@ == (State {
                error: Some(what@ + ": "@ + error@),
                ..old(self)@
            }),
    {
        let mut text = owned(what);
        text.append(": ");
        text.append(error);
        self.error = Some(text);
    }

    /// Does what an action of the tree view asks for, but for those that open
    /// and close.
    pub fn act(&mut self, action: &TreeAction) -> (effect: Effect)
        ensures
            final(self)@ == acted(old(self)@, action@),
            is_effect(effect, old(self)@, action@),
    {
        match action {
            TreeAction::Click { path, shift, toggle } => {
                self.click(path, *shift, *toggle);
                Effect::Nothing
            },
            TreeAction::Focus(path) => {
                self.focus(path);
                Effect::Nothing
            },
            TreeAction::Trash(path) => match self.trash(path) {
                Some(job) => Effect::Delete(job),
                None => Effect::Nothing,
            },
            TreeAction::TrashSelected => match self.batch_trash_selected() {
                Some(job) => Effect::Delete(job),
                None => Effect::Nothing,
            },
            TreeAction::ConfirmDelete(path) => {
                self.ask_delete(path);
                Effect::Nothing
            },
            TreeAction::ConfirmDeleteSelected => {
                self.ask_delete_selected();
                Effect::Nothing
            },
            TreeAction::RevealInFinder(path) => Effect::Reveal(path.clone()),
            TreeAction::CopyPath(path) => Effect::Copy(path.to_text()),
            TreeAction::ToggleExpand(_) | TreeAction::ToggleFileGroup(_) => Effect::Nothing,
        }
    }

    /// Does what an action of the tree view asks for that opens or closes.
    pub fn open_or_close(&mut self, action: &TreeAction)
        requires
            session::valid(old(self)@),
        ensures
            final(self)@ == opened_or_closed(old(self)@, action@),
            session::valid(final(self)@),
    {
        if self.tree.is_none() {
            return;
        }
        match action {
            TreeAction::ToggleExpand(path) => {
                let tree = self.tree.take();
                if let Some(mut tree) = tree {
                    proof {
                        shape::lemma_changed_sound(
                            tree@,
                            path::parse_parts(tree@.name),
                            path@,
                            Change::Toggle,
                        );
                    }
                    navigate::toggle_expand(&mut tree, path);
                    self.tree = Some(tree);
                }
                self.rows_dirty = true;
                self.selected_paths.clear();
                self.selection_anchor = None;
            },
            TreeAction::ToggleFileGroup(path) => {
                if let Some(dir) = path.parent() {
                    if !self.expanded_file_groups.remove(&dir) {
                        assert(old(self)@.groups.remove(dir@) =~= old(self)@.groups);
                        self.expanded_file_groups.insert(&dir);
                    }
                }
                self.rows_dirty = true;
            },
            _ => {},
        }
    }

    /// Does what the actions of the tree view ask for: first those that do not
    /// open or close, then the others.
    pub fn run_actions(&mut self, actions: &Vec<TreeAction>) -> (effects: Vec<Effect>)
        requires
            session::valid(old(self)@),
        ensures
            session::valid(final(self)@),
            ({
                let wishes = tree_view::wishes(actions@);
                let between = all_acted(old(self)@, wishes, wishes.len());
                &&& final(self)@ == all_opened_or_closed(between, wishes, wishes.len())
                &&& effects@.len() == wishes.len()
                &&& forall|i: int|
                    0 <= i < wishes.len() ==> is_effect(
                        #[trigger] effects@[i],
                        all_acted(old(self)@, wishes, i as nat),
                        wishes[i],
                    )
            }),
    {
        let ghost wishes = tree_view::wishes(actions@);
        let ghost before = self@;
        let mut effects: Vec<Effect> = Vec::new();
        let mut i: usize = 0;
        while i < actions.len()
            invariant
                i <= actions@.len(),
                wishes == tree_view::wishes(actions@),
                session::valid(self@),
                self@ == all_acted(before, wishes, i as nat),
                effects@.len() == i,
                forall|k: int|
                    0 <= k < i ==> is_effect(
                        #[trigger] effects@[k],
                        all_acted(before, wishes, k as nat),
                        wishes[k],
                    ),
            decreases actions@.len() - i,
        {
            assert(wishes[i as int] == actions@[i as int]@);
            effects.push(self.act(&actions[i]));
            i += 1;
        }
        let ghost between = self@;
        let mut k: usize = 0;
        while k < actions.len()
            invariant
                k <= actions@.len(),
                wishes == tree_view::wishes(actions@),
                session::valid(self@),
                self@ == all_opened_or_closed(between, wishes, k as nat),
            decreases actions@.len() - k,
        {
            assert(wishes[k as int] == actions@[k as int]@);
            self.open_or_close(&actions[k]);
            k += 1;
        }
        effects
    }

    /// Whether the bar with actions on the selected rows is shown.
    pub fn shows_batch_bar(&self) -> (yes: bool)
        ensures
            yes == (self@.selected.len() > 0 && self@.tree is Some && !self@.scanning && self@.view
                == ViewMode::Tree),
    {
        self.selected_paths.len() > 0 && self.tree.is_some() && !self.scanning && self.view_mode
            == ViewMode::Tree
    }

    /// Whether the panel of file types is shown.
    pub fn shows_category_panel(&self) -> (yes: bool)
        ensures
            yes == (self@.tree is Some && !self@.scanning && self@.show_categories),
    {
        self.tree.is_some() && !self.scanning && self.show_categories
    }

    /// Whether the toolbar is shown: not on the first page.
    pub fn shows_toolbar(&self) -> (yes: bool)
        ensures
            yes == (self@.tree is Some || self@.scanning),
    {
        self.tree.is_some() || self.scanning
    }

    /// The question before the selected rows are deleted for good.
    pub fn batch_prompt(pending: usize) -> (prompt: String)
        ensures
            prompt@ == session::batch_question(pending as nat),
    {
        let mut prompt = owned("Permanently delete ");
        push_decimal(&mut prompt, pending as u64);
        prompt.append(" selected item(s)? This cannot be undone.");
        prompt
    }

    /// How many rows are selected.
    pub fn selection_line(&self) -> (line: String)
        ensures
            line@ == text::decimal(self@.selected.len()) + " item"@ + scanner::plural(
                self@.selected.len(),
            ) + " selected"@,
    {
        let count: usize = self.selected_paths.len();
        let mut line = String::new();
        push_decimal(&mut line, count as u64);
        line.append(" item");
        if count != 1 {
            line.append("s");
        }
        proof {
            reveal_strlit("");
        }
        line.append(" selected");
        assert(line@ =~= text::decimal(self@.selected.len()) + " item"@ + scanner::plural(
            self@.selected.len(),
        ) + " selected"@);
        line
    }

    /// How far a deletion has come.
    pub fn deletion_line(&self) -> (line: String)
        ensures
            line@ == "Deleting "@ + text::decimal(self@.delete_done) + "/"@ + text::decimal(
                self@.delete_total,
            ) + "..."@,
    {
        let mut line = owned("Deleting ");
        push_decimal(&mut line, self.deleter.done_count() as u64);
        line.append("/");
        push_decimal(&mut line, self.deleter.total() as u64);
        line.append("...");
        line
    }
}

/// Whether the rows show the tree, unless they are marked as out of date.
pub open spec fn fresh(state: State) -> bool {
    state.tree is Some && !state.rows_dirty ==> state.rows == session::shown_rows(state)
}

/// The rows never show anything but the tree without being marked: not after
/// they were brought up to date, nor after a key.
pub proof fn lemma_keys_keep_rows_fresh(state: State, flag: bool)
    requires
        fresh(state),
    ensures
        fresh(session::refreshed(state)),
        fresh(session::stepped(state, flag)),
        fresh(session::turned(state, flag)),
        fresh(session::spaced(state)),
{
}

proof fn lemma_begun_fresh(state: State, n: nat)
    requires
        fresh(state),
    ensures
        fresh(session::begun(state, n)),
{
}

/// Nor after any number of actions of the tree view.
pub proof fn lemma_actions_keep_rows_fresh(state: State, wishes: Seq<Wish>, n: nat)
    requires
        fresh(state),
        n <= wishes.len(),
    ensures
        fresh(all_acted(state, wishes, n)),
        fresh(all_opened_or_closed(state, wishes, n)),
    decreases n,
{
    if n > 0 {
        lemma_actions_keep_rows_fresh(state, wishes, (n - 1) as nat);
        let before = all_acted(state, wishes, (n - 1) as nat);
        match wishes[n - 1] {
            Wish::Trash(path) => {
                lemma_begun_fresh(
                    State { selected: session::without(before.selected, path.parts), ..before },
                    session::targets_of(before, path).len(),
                );
            },
            Wish::TrashSelected => {
                lemma_begun_fresh(
                    State { selected: Seq::empty(), ..before },
                    session::selected_targets(before).len(),
                );
            },
            _ => {},
        }
    }
}

/// Nor after a scan has begun or ended.
pub proof fn lemma_scans_keep_rows_fresh(
    state: State,
    path: Place,
    disk: Option<(u64, u64)>,
    volumes: Seq<platform::Volume>,
    tree: Tree,
    stats: Seq<(FileCategory, u64, usize)>,
    progress: ScanProgress,
    duration: Option<(u64, u32)>,
)
    requires
        fresh(state),
    ensures
        fresh(scan_begun(state, path, disk, volumes)),
        fresh(scan_ended(state, tree, stats, progress, duration)),
{
}

/// Nor after a deletion.
pub proof fn lemma_deletions_keep_rows_fresh(
    state: State,
    results: Seq<(Parts, Option<Seq<char>>)>,
    n: nat,
)
    requires
        fresh(state),
        n <= results.len(),
    ensures
        fresh(deletions_noted(state, results, n)),
    decreases n,
{
    if n > 0 {
        lemma_deletions_keep_rows_fresh(state, results, (n - 1) as nat);
    }
}

/// A failed deletion leaves the tree as it is.
pub proof fn lemma_failure_keeps_tree(state: State, path: Parts, message: Seq<char>)
    ensures
        deletion_noted(state, path, Some(message)).tree == state.tree,
        deletion_noted(state, path, Some(message)).error == Some("Delete failed: "@ + message),
{
}

/// Closing a group that was opened restores the groups.
pub proof fn lemma_group_twice(state: State, path: Place)
    ensures
        ({
            let wish = Wish::ToggleFileGroup(path);
            opened_or_closed(opened_or_closed(state, wish), wish).groups == state.groups
        }),
{
    match path::parent_parts(path.parts) {
        Some(dir) => {
            assert(state.groups.insert(dir).remove(dir) =~= if state.groups.contains(dir) {
                state.groups.remove(dir)
            } else {
                state.groups
            });
            if state.groups.contains(dir) {
                assert(state.groups.remove(dir).insert(dir) =~= state.groups);
            }
        },
        None => {},
    }
}

} // verus!
