use disk_cleaner::categories::{compute_stats, FileCategory};
use disk_cleaner::commands::Effect;
use disk_cleaner::config::load_config;
use disk_cleaner::path::{NodePath, PathSet};
use disk_cleaner::platform::VolumeInfo;
use disk_cleaner::scanner::{scan_directory, walk_dir, ScanProgress};
use disk_cleaner::screenshot::{
    advance, picture_file, FrameWork, Scene, ScreenshotState, ViewMode, SETTLE_FRAMES,
};
use disk_cleaner::session::Session;
use disk_cleaner::tree::{leaf, FileNode};
use disk_cleaner::tree_view::{
    bar_color, highlight, menu, row_clicked, row_secondary_clicked, selected_line,
    selection_count, Highlight, MenuEntry, TreeAction,
};
use disk_cleaner::window::{
    debounce, keep_titlebar_dark, volumes_outdated, Debounce, Theme, TitleBar,
};

fn path(text: &str) -> NodePath {
    NodePath::new(text)
}

fn folder(name: &str, children: Vec<FileNode>) -> FileNode {
    walk_dir(String::from(name), false, children)
}

/// A session with a scanned tree: `/r` holds `big` with two files, `small` with
/// one, and the loose files `x.txt` and `y.mp4`.
fn scanned() -> Session {
    let tree = folder(
        "r",
        vec![
            folder("big", vec![leaf("b1", 60), leaf("b2", 40)]),
            folder("small", vec![leaf("s1", 5)]),
            leaf("x.txt", 7),
            leaf("y.mp4", 8),
        ],
    );
    let mut session = Session::new(None, false);
    let document = session.start_scan(&path("/r"), Some((1000, 400)), &vec![]);
    assert_eq!(load_config(Some(&document)), (Some(String::from("/r")), false));
    assert!(session.scanning && session.tree.is_none());
    let tree = scan_directory("/r", tree);
    let stats = compute_stats(&tree);
    let mut progress = ScanProgress::new();
    progress.record_files(5, 120);
    session.finish_scan(tree, stats, &progress, Some((2, 0)));
    session.rebuild_rows_if_dirty();
    session
}

fn names(session: &Session) -> Vec<&str> {
    session.cached_rows.iter().map(|r| r.name.as_str()).collect()
}

fn selected(session: &Session) -> Vec<String> {
    session.selected_paths.members().iter().map(|p| p.to_text()).collect()
}

fn focused(session: &Session) -> Option<String> {
    session.focused_path.as_ref().map(|p| p.to_text())
}

#[test]
fn a_finished_scan_is_shown() {
    let session = scanned();
    assert!(!session.scanning);
    assert_eq!(session.last_scan.file_count, 5);
    assert_eq!(session.last_scan.total_size, 120);
    assert_eq!(session.last_scan.duration, Some((2, 0)));
    assert_eq!(names(&session), vec!["/r", "big", "[2 files]", "[2 files]", "small"]);
    assert!(session.shows_toolbar() && !session.shows_batch_bar());
    assert!(!session.shows_category_panel());
    assert_eq!(session.scan_disk_info, Some((1000, 400)));
    assert!(!session.scan_is_volume);
}

#[test]
fn a_scanned_volume_is_known_as_one() {
    let volumes = vec![VolumeInfo {
        name: String::from("disk"),
        path: path("/r"),
        total_bytes: 10,
        available_bytes: 5,
    }];
    let mut session = Session::new(Some(path("/old")), true);
    session.start_scan(&path("/r"), None, &volumes);
    assert!(session.scan_is_volume);
    session.cancel_scan();
    assert!(!session.scanning && !session.shows_toolbar());
}

#[test]
fn arrows_move_the_focus() {
    let mut session = scanned();
    session.step_focus(false);
    assert_eq!(focused(&session).unwrap(), "/r");
    session.step_focus(false);
    assert_eq!(focused(&session).unwrap(), "/r/big");
    assert!(session.tree_scroll_to_focus);
    session.step_focus(true);
    session.step_focus(true);
    assert_eq!(focused(&session).unwrap(), "/r");
    for _ in 0..10 {
        session.step_focus(false);
    }
    assert_eq!(focused(&session).unwrap(), "/r/small");
    let mut empty = Session::new(None, false);
    empty.step_focus(true);
    assert!(empty.focused_path.is_none());
}

#[test]
fn arrows_open_and_close() {
    let mut session = scanned();
    session.focus(&path("/r/small"));
    session.turn_focus(false);
    assert!(session.rows_dirty && session.treemap_dirty);
    session.rebuild_rows_if_dirty();
    assert_eq!(names(&session).last().copied(), Some("s1"));
    session.turn_focus(false);
    assert_eq!(focused(&session).unwrap(), "/r/small/s1");
    session.turn_focus(true);
    assert_eq!(focused(&session).unwrap(), "/r/small");
    session.turn_focus(true);
    session.rebuild_rows_if_dirty();
    assert_eq!(names(&session).last().copied(), Some("small"));
    session.press_space();
    session.rebuild_rows_if_dirty();
    assert_eq!(names(&session).last().copied(), Some("s1"));
}

#[test]
fn arrows_open_and_close_groups() {
    let mut session = scanned();
    let group = path("/r/__file_group__");
    session.focus(&group);
    session.turn_focus(false);
    session.rebuild_rows_if_dirty();
    assert_eq!(
        names(&session),
        vec!["/r", "big", "[2 files]", "[2 files]", "y.mp4", "x.txt", "small"]
    );
    session.turn_focus(false);
    assert_eq!(focused(&session).unwrap(), "/r/y.mp4");
    session.focus(&group);
    session.turn_focus(true);
    session.rebuild_rows_if_dirty();
    assert_eq!(session.cached_rows.len(), 5);
    session.turn_focus(true);
    assert_eq!(focused(&session).unwrap(), "/r");
}

#[test]
fn clicks_select() {
    let mut session = scanned();
    session.click(&path("/r/big"), false, false);
    assert_eq!(selected(&session), vec!["/r/big"]);
    session.click(&path("/r/small"), false, true);
    assert_eq!(selected(&session).len(), 2);
    session.click(&path("/r/small"), false, true);
    assert_eq!(selected(&session), vec!["/r/big"]);
    session.click(&path("/r/big"), false, false);
    session.click(&path("/r/small"), true, false);
    assert_eq!(
        selected(&session),
        vec!["/r/big", "/r/big/__file_group__", "/r/__file_group__", "/r/small"]
    );
    session.click(&path("/r/small"), false, false);
    session.click(&path("/r/big"), true, false);
    assert_eq!(selected(&session).len(), 4);
    assert!(session.shows_batch_bar());
    assert_eq!(session.selection_line(), "4 items selected");
    session.click(&path("/r"), false, false);
    assert_eq!(session.selection_line(), "1 item selected");
    let mut fresh = scanned();
    fresh.click(&path("/r/big"), true, false);
    assert_eq!(selected(&fresh), vec!["/r/big"]);
}

#[test]
fn deletions_are_begun_and_noted() {
    let mut session = scanned();
    session.focus(&path("/r/__file_group__"));
    let job = session.press_delete().unwrap();
    let paths: Vec<String> = job.paths.iter().map(|p| p.to_text()).collect();
    assert_eq!(paths, vec!["/r/x.txt", "/r/y.mp4"]);
    assert!(job.use_trash && session.focused_path.is_none());
    assert!(session.deleter.is_active());
    assert!(session.trash(&path("/r/small")).is_none());
    assert_eq!(session.deletion_line(), "Deleting 0/2...");
    assert!(!session.poll_delete_completion(None));
    let freed = session.poll_delete_completion(Some(vec![
        (path("/r/x.txt"), None),
        (path("/r/y.mp4"), Some(String::from("busy"))),
    ]));
    assert!(freed);
    assert_eq!(session.deleter.done_count(), 2);
    assert_eq!(session.error.as_deref(), Some("Delete failed: busy"));
    assert_eq!(session.tree.as_ref().unwrap().size(), 113);
    assert!(session.rows_dirty);
    session.refresh_disk_info(Some((1000, 407)));
    assert_eq!(session.scan_disk_info, Some((1000, 407)));
    assert!(session.press_delete().is_none());
}

#[test]
fn paths_are_shown_and_saved_as_they_were_given() {
    let mut session = Session::new(Some(path("/old//place/")), false);
    let document = session.toggle_hidden().unwrap();
    assert_eq!(load_config(Some(&document)), (Some(String::from("/old//place/")), true));
    let document = session.start_scan(&path("/x//r/"), None, &vec![]);
    assert_eq!(load_config(Some(&document)), (Some(String::from("/x//r/")), true));
    let tree = folder("r", vec![leaf("a", 9), leaf("b", 7), folder("d", vec![leaf("e", 1)])]);
    let tree = scan_directory("/x//r/", tree);
    let stats = compute_stats(&tree);
    session.finish_scan(tree, stats, &ScanProgress::new(), None);
    session.rebuild_rows_if_dirty();
    let rows: Vec<String> = session.cached_rows.iter().map(|r| r.path.to_text()).collect();
    assert_eq!(rows[..2], ["/x//r/", "/x//r/__file_group__"]);
    session.focus(&path("/x/r"));
    session.step_focus(false);
    session.press_shift_delete();
    let prompt = session.confirm_delete.as_ref().unwrap().prompt.clone();
    assert_eq!(prompt, "Permanently delete 2 files in\n/x//r");
    session.focus(&path("/x/r/d"));
    session.turn_focus(true);
    session.ask_delete(&path("/x/r//d"));
    let prompt = session.confirm_delete.as_ref().unwrap().prompt.clone();
    assert_eq!(prompt, "Permanently delete?\n/x/r//d");
    match session.act(&TreeAction::RevealInFinder(path("/x//r/./a"))) {
        Effect::Reveal(shown) => assert_eq!(shown.to_text(), "/x//r/./a"),
        _ => panic!("nothing is revealed"),
    }
    session.click(&path("/x/./r/a"), false, false);
    assert_eq!(selected(&session), ["/x/./r/a"]);
    let job = session.batch_trash_selected().unwrap();
    assert_eq!(job.paths[0].to_text(), "/x/./r/a");
    match session.act(&TreeAction::CopyPath(path("/x//r/./a"))) {
        Effect::Copy(text) => assert_eq!(text, "/x//r/./a"),
        _ => panic!("nothing was copied"),
    }
}

#[test]
fn permanent_deletion_asks_first() {
    let mut session = scanned();
    session.focus(&path("/r/__file_group__"));
    session.press_shift_delete();
    let prompt = session.confirm_delete.as_ref().unwrap().prompt.clone();
    assert_eq!(prompt, "Permanently delete 2 files in\n/r");
    assert!(session.answer_delete(false).is_none());
    assert!(session.confirm_delete.is_none());
    session.ask_delete(&path("/r/small"));
    assert_eq!(
        session.confirm_delete.as_ref().unwrap().prompt,
        "Permanently delete?\n/r/small"
    );
    session.tree = None;
    let job = session.answer_delete(true).unwrap();
    assert!(!job.use_trash);
    assert_eq!(job.paths[0].to_text(), "/r/small");
    assert!(session.answer_delete(true).is_none());
}

#[test]
fn selected_rows_are_deleted_together() {
    let mut session = scanned();
    session.click(&path("/r/__file_group__"), false, false);
    session.click(&path("/r/x.txt"), false, true);
    session.ask_delete_selected();
    let pending = session.confirm_batch_delete.as_ref().unwrap();
    assert_eq!(pending.item_count, 2);
    assert_eq!(pending.targets.len(), 2);
    assert_eq!(
        Session::batch_prompt(2),
        "Permanently delete 2 selected item(s)? This cannot be undone."
    );
    let job = session.answer_batch_delete(true).unwrap();
    assert_eq!(job.paths.len(), 2);
    assert!(session.selected_paths.is_empty());
    let mut trash = scanned();
    trash.click(&path("/r/small"), false, false);
    assert_eq!(trash.batch_trash_selected().unwrap().paths.len(), 1);
    let mut none = scanned();
    assert!(none.batch_trash_selected().is_none());
    assert!(none.answer_batch_delete(false).is_none());
}

#[test]
fn filters_change_what_is_shown() {
    let mut session = scanned();
    session.toggle_categories();
    assert!(session.shows_category_panel());
    session.choose_category(Some(FileCategory::Video));
    session.rebuild_rows_if_dirty();
    assert_eq!(names(&session), vec!["/r", "y.mp4"]);
    session.choose_category(Some(FileCategory::Video));
    assert!(session.category_filter.is_none());
    session.choose_category(Some(FileCategory::Document));
    session.toggle_categories();
    assert!(session.category_filter.is_none() && !session.show_categories);
    session.search_query = String::from("S1");
    session.apply_search();
    session.rebuild_rows_if_dirty();
    assert_eq!(names(&session), vec!["/r", "small", "s1"]);
    let document = session.toggle_hidden().unwrap();
    assert_eq!(load_config(Some(&document)), (Some(String::from("/r")), true));
    assert!(session.show_hidden);
    session.set_view(ViewMode::Treemap);
    assert!(session.view_mode == ViewMode::Treemap);
    assert!(Session::new(None, false).toggle_hidden().is_none());
}

#[test]
fn zooming_marks_the_treemap() {
    let mut session = scanned();
    session.treemap_dirty = false;
    assert!(session.zoom_to(&path("/r/big")));
    assert!(session.treemap_dirty);
    assert!(!session.zoom_to(&path("/r/big")));
    assert!(session.zoom_to(&path("/r")));
    assert!(session.treemap_zoom.is_none());
    session.report_error("Could not open", "no");
    assert_eq!(session.error.as_deref(), Some("Could not open: no"));
}

#[test]
fn actions_run_in_two_rounds() {
    let mut session = scanned();
    let effects = session.run_actions(&vec![
        TreeAction::ToggleExpand(path("/r/small")),
        TreeAction::Click { path: path("/r/big"), shift: false, toggle: false },
        TreeAction::CopyPath(path("/r/big")),
        TreeAction::RevealInFinder(path("/r")),
        TreeAction::Focus(path("/r/big")),
        TreeAction::ToggleFileGroup(path("/r/__file_group__")),
        TreeAction::Trash(path("/r/x.txt")),
    ]);
    assert_eq!(effects.len(), 7);
    assert!(matches!(&effects[2], Effect::Copy(text) if text == "/r/big"));
    assert!(matches!(&effects[3], Effect::Reveal(p) if p.to_text() == "/r"));
    assert!(matches!(&effects[6], Effect::Delete(job) if job.use_trash && job.paths.len() == 1));
    assert!(matches!(&effects[0], Effect::Nothing));
    assert!(selected(&session).is_empty());
    assert_eq!(focused(&session).unwrap(), "/r/big");
    assert!(session.expanded_file_groups.contains(&path("/r")));
    session.rebuild_rows_if_dirty();
    assert!(names(&session).contains(&"s1"));
    let more = session.run_actions(&vec![
        TreeAction::ToggleFileGroup(path("/r/__file_group__")),
        TreeAction::ConfirmDelete(path("/r/big")),
        TreeAction::ConfirmDeleteSelected,
        TreeAction::TrashSelected,
    ]);
    assert_eq!(more.len(), 4);
    assert!(!session.expanded_file_groups.contains(&path("/r")));
    assert!(session.confirm_delete.is_some() && session.confirm_batch_delete.is_some());
}

#[test]
fn rows_offer_what_fits_them() {
    let session = scanned();
    let big = &session.cached_rows[1];
    let group = &session.cached_rows[3];
    let on_mark = row_clicked(big, true, false, false);
    assert!(matches!(&on_mark[0], TreeAction::ToggleExpand(p) if p.to_text() == "/r/big"));
    let beside = row_clicked(big, false, true, false);
    assert!(matches!(&beside[0], TreeAction::Click { shift: true, toggle: false, .. }));
    assert!(matches!(&beside[1], TreeAction::Focus(_)));
    assert!(matches!(&row_clicked(group, false, false, false)[0], TreeAction::ToggleFileGroup(_)));
    let mut chosen = PathSet::new();
    assert_eq!(row_secondary_clicked(big, &chosen).len(), 2);
    assert_eq!(selection_count(big, &chosen), 1);
    chosen.insert(&big.path);
    chosen.insert(&group.path);
    assert_eq!(row_secondary_clicked(big, &chosen).len(), 1);
    assert_eq!(selection_count(big, &chosen), 2);
    assert_eq!(menu(2), vec![MenuEntry::TrashSelected, MenuEntry::DeleteSelected]);
    assert_eq!(menu(1).len(), 4);
    assert_eq!(MenuEntry::TrashSelected.label(3), "Move 3 Items to Trash");
    assert_eq!(MenuEntry::DeleteSelected.label(3), "Delete 3 Items Permanently");
    assert_eq!(MenuEntry::Reveal.label(1), "Open in Finder");
    assert!(matches!(MenuEntry::Delete.action(&big.path), TreeAction::ConfirmDelete(_)));
    assert_eq!(selected_line(3), "3 items selected");
    assert_eq!(highlight(true, true, false), Highlight::SelectedFocused);
    assert_eq!(highlight(false, false, true), Highlight::Hovered);
    assert_eq!(highlight(false, false, false), Highlight::Plain);
    assert!(bar_color(1_000_000_000).unwrap() != bar_color(1_000_000_001).unwrap());
    assert!(bar_color(100_000_000).is_none());
}

#[test]
fn screenshots_are_taken_of_every_view() {
    let mut scene = Scene {
        state: ScreenshotState::WaitingForView,
        view: ViewMode::Tree,
        show_categories: false,
    };
    let mut files = Vec::new();
    let mut frames = 0;
    loop {
        let got = scene.state == ScreenshotState::WaitingForEvent;
        if got {
            files.push(picture_file("shot", scene, false, true));
        }
        let (next, work) = advance(scene, false, true, got);
        scene = next;
        frames += 1;
        if work.close {
            break;
        }
        assert!(frames < 100);
    }
    assert_eq!(files, vec!["shot_tree.png", "shot_tree_full.png", "shot_treemap.png"]);
    assert_eq!(scene.state, ScreenshotState::Idle);
    let waiting = Scene { state: ScreenshotState::WaitingForView, ..scene };
    let (still, work) = advance(waiting, true, false, false);
    assert_eq!(still, waiting);
    assert_eq!(work, FrameWork { repaint: false, capture: false, close: false });
    let (settling, _) = advance(waiting, false, false, false);
    assert_eq!(settling.state, ScreenshotState::WaitFrames(SETTLE_FRAMES));
    assert_eq!(picture_file("p", waiting, false, false), "p_home.png");
}

#[test]
fn the_title_bar_is_darkened_when_something_changed() {
    let bar = TitleBar { last_os_theme: Some(Theme::Dark), was_focused: false };
    assert_eq!(keep_titlebar_dark(bar, Some(Theme::Dark), None), (bar, false));
    let (seen, darken) = keep_titlebar_dark(bar, Some(Theme::Light), Some(true));
    assert!(darken && seen.was_focused && seen.last_os_theme == Some(Theme::Light));
    assert!(keep_titlebar_dark(bar, Some(Theme::Dark), Some(true)).1);
    assert_eq!(debounce(150_000_000), Debounce::Apply);
    assert_eq!(debounce(100_000_000), Debounce::Wait(50_000_000));
    assert!(volumes_outdated(None) && volumes_outdated(Some(5)) && !volumes_outdated(Some(4)));
}
