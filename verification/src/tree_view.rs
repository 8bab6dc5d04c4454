//! What the rows of the tree view offer and ask for.

use vstd::prelude::*;

use crate::color::Rgb;
use crate::path::{NodePath, PathSet, Place};
use crate::text;
use crate::text::{owned, push_decimal};
use crate::ui::CachedRow;

verus! {

/// Actions produced by tree rendering, applied after the frame.
pub enum TreeAction {
    ToggleExpand(NodePath),
    ToggleFileGroup(NodePath),
    Click { path: NodePath, shift: bool, toggle: bool },
    Focus(NodePath),
    Trash(NodePath),
    TrashSelected,
    ConfirmDelete(NodePath),
    ConfirmDeleteSelected,
    RevealInFinder(NodePath),
    CopyPath(NodePath),
}

/// An action as a mathematical value.
pub enum Wish {
    ToggleExpand(Place),
    ToggleFileGroup(Place),
    Click { path: Place, shift: bool, toggle: bool },
    Focus(Place),
    Trash(Place),
    TrashSelected,
    ConfirmDelete(Place),
    ConfirmDeleteSelected,
    RevealInFinder(Place),
    CopyPath(Place),
}

impl View for TreeAction {
    type V = Wish;

    open spec fn view(&self) -> Wish {
        match self {
            TreeAction::ToggleExpand(path) => Wish::ToggleExpand(path.place()),
            TreeAction::ToggleFileGroup(path) => Wish::ToggleFileGroup(path.place()),
            TreeAction::Click { path, shift, toggle } => Wish::Click {
                path: path.place(),
                shift: *shift,
                toggle: *toggle,
            },
            TreeAction::Focus(path) => Wish::Focus(path.place()),
            TreeAction::Trash(path) => Wish::Trash(path.place()),
            TreeAction::TrashSelected => Wish::TrashSelected,
            TreeAction::ConfirmDelete(path) => Wish::ConfirmDelete(path.place()),
            TreeAction::ConfirmDeleteSelected => Wish::ConfirmDeleteSelected,
            TreeAction::RevealInFinder(path) => Wish::RevealInFinder(path.place()),
            TreeAction::CopyPath(path) => Wish::CopyPath(path.place()),
        }
    }
}

/// Actions as mathematical values.
pub open spec fn wishes(actions: Seq<TreeAction>) -> Seq<Wish> {
    actions.map_values(|action: TreeAction| action@)
}

/// What a click on a row asks for. A group is opened or closed, and so is a
/// directory that is clicked on its mark; any other click selects. The row is
/// focused too.
pub fn row_clicked(row: &CachedRow, on_mark: bool, shift: bool, toggle: bool) -> (actions: Vec<
    TreeAction,
>)
    ensures
        wishes(actions@) == seq![
            if row.is_file_group {
                Wish::ToggleFileGroup(row.path.place())
            } else if row.is_dir && on_mark {
                Wish::ToggleExpand(row.path.place())
            } else {
                Wish::Click { path: row.path.place(), shift, toggle }
            },
            Wish::Focus(row.path.place()),
        ],
{
    let mut actions: Vec<TreeAction> = Vec::new();
    if row.is_file_group {
        actions.push(TreeAction::ToggleFileGroup(row.path.clone()));
    } else if row.is_dir && on_mark {
        actions.push(TreeAction::ToggleExpand(row.path.clone()));
    } else {
        actions.push(TreeAction::Click { path: row.path.clone(), shift, toggle });
    }
    actions.push(TreeAction::Focus(row.path.clone()));
    assert(wishes(actions@) =~= seq![actions@[0]@, actions@[1]@]);
    actions
}

/// What a click with the other button on a row asks for: a row that is not
/// selected is, and the row is focused.
pub fn row_secondary_clicked(row: &CachedRow, selected: &PathSet) -> (actions: Vec<TreeAction>)
    ensures
        wishes(actions@) == (if selected@.contains(row.path@) {
            seq![Wish::Focus(row.path.place())]
        } else {
            seq![
                Wish::Click { path: row.path.place(), shift: false, toggle: false },
                Wish::Focus(row.path.place()),
            ]
        }),
{
    let mut actions: Vec<TreeAction> = Vec::new();
    let known: bool = selected.contains(&row.path);
    if !known {
        actions.push(TreeAction::Click { path: row.path.clone(), shift: false, toggle: false });
    }
    actions.push(TreeAction::Focus(row.path.clone()));
    proof {
        if known {
            assert(wishes(actions@) =~= seq![actions@[0]@]);
        } else {
            assert(wishes(actions@) =~= seq![actions@[0]@, actions@[1]@]);
        }
    }
    actions
}

/// How many rows the menu of a row is about: the selected ones where the row
/// is among them, else the row alone.
pub fn selection_count(row: &CachedRow, selected: &PathSet) -> (count: usize)
    ensures
        count == (if selected@.contains(row.path@) {
            selected@.len()
        } else {
            1
        }),
{
    if selected.contains(&row.path) {
        selected.len()
    } else {
        1
    }
}

/// The entries of a row's menu.
#[derive(Clone, Copy, Debug, PartialEq, Eq, Structural)]
pub enum MenuEntry {
    TrashSelected,
    DeleteSelected,
    Reveal,
    CopyPath,
    Trash,
    Delete,
}

/// The entries of the menu about `count` rows.
pub open spec fn menu_entries(count: nat) -> Seq<MenuEntry> {
    if count > 1 {
        seq![MenuEntry::TrashSelected, MenuEntry::DeleteSelected]
    } else {
        seq![MenuEntry::Reveal, MenuEntry::CopyPath, MenuEntry::Trash, MenuEntry::Delete]
    }
}

pub fn menu(count: usize) -> (entries: Vec<MenuEntry>)
    ensures
        entries@ == menu_entries(count as nat),
{
    let entries = if count > 1 {
        vec![MenuEntry::TrashSelected, MenuEntry::DeleteSelected]
    } else {
        vec![MenuEntry::Reveal, MenuEntry::CopyPath, MenuEntry::Trash, MenuEntry::Delete]
    };
    assert(entries@ =~= menu_entries(count as nat));
    entries
}

impl MenuEntry {
    /// The text of an entry of the menu about `count` rows.
    pub open spec fn title(self, count: nat) -> Seq<char> {
        match self {
            MenuEntry::TrashSelected => "Move "@ + text::decimal(count) + " Items to Trash"@,
            MenuEntry::DeleteSelected => "Delete "@ + text::decimal(count) + " Items Permanently"@,
            MenuEntry::Reveal => "Open in Finder"@,
            MenuEntry::CopyPath => "Copy Path"@,
            MenuEntry::Trash => "Move to Trash"@,
            MenuEntry::Delete => "Delete Permanently"@,
        }
    }

    pub fn label(self, count: usize) -> (label: String)
        ensures
            label@ == self.title(count as nat),
    {
        match self {
            MenuEntry::TrashSelected => {
                let mut label = owned("Move ");
                push_decimal(&mut label, count as u64);
                label.append(" Items to Trash");
                label
            },
            MenuEntry::DeleteSelected => {
                let mut label = owned("Delete ");
                push_decimal(&mut label, count as u64);
                label.append(" Items Permanently");
                label
            },
            MenuEntry::Reveal => owned("Open in Finder"),
            MenuEntry::CopyPath => owned("Copy Path"),
            MenuEntry::Trash => owned("Move to Trash"),
            MenuEntry::Delete => owned("Delete Permanently"),
        }
    }

    /// What an entry of the menu of the row at `path` asks for.
    pub fn action(self, path: &NodePath) -> (action: TreeAction)
        ensures
            action@ == (match self {
                MenuEntry::TrashSelected => Wish::TrashSelected,
                MenuEntry::DeleteSelected => Wish::ConfirmDeleteSelected,
                MenuEntry::Reveal => Wish::RevealInFinder(path.place()),
                MenuEntry::CopyPath => Wish::CopyPath(path.place()),
                MenuEntry::Trash => Wish::Trash(path.place()),
                MenuEntry::Delete => Wish::ConfirmDelete(path.place()),
            }),
    {
        match self {
            MenuEntry::TrashSelected => TreeAction::TrashSelected,
            MenuEntry::DeleteSelected => TreeAction::ConfirmDeleteSelected,
            MenuEntry::Reveal => TreeAction::RevealInFinder(path.clone()),
            MenuEntry::CopyPath => TreeAction::CopyPath(path.clone()),
            MenuEntry::Trash => TreeAction::Trash(path.clone()),
            MenuEntry::Delete => TreeAction::ConfirmDelete(path.clone()),
        }
    }
}

/// The line above the menu of several rows.
pub fn selected_line(count: usize) -> (line: String)
    ensures
        line@ == text::decimal(count as nat) + " items selected"@,
{
    let mut line = String::new();
    push_decimal(&mut line, count as u64);
    line.append(" items selected");
    assert(line@ =~= text::decimal(count as nat) + " items selected"@);
    line
}

/// How a row stands out.
#[derive(Clone, Copy, Debug, PartialEq, Eq, Structural)]
pub enum Highlight {
    Plain,
    Hovered,
    Focused,
    Selected,
    SelectedFocused,
}

/// How a row stands out: a selected row before a focused one before one that
/// the pointer is on.
pub fn highlight(selected: bool, focused: bool, hovered: bool) -> (highlight: Highlight)
    ensures
        highlight == (if selected && focused {
            Highlight::SelectedFocused
        } else if selected {
            Highlight::Selected
        } else if focused {
            Highlight::Focused
        } else if hovered {
            Highlight::Hovered
        } else {
            Highlight::Plain
        }),
{
    if selected && focused {
        Highlight::SelectedFocused
    } else if selected {
        Highlight::Selected
    } else if focused {
        Highlight::Focused
    } else if hovered {
        Highlight::Hovered
    } else {
        Highlight::Plain
    }
}

/// The colour of the bar of a directory; None for the colour of weak text.
pub fn bar_color(size: u64) -> (fill: Option<Rgb>)
    ensures
        fill == (if size > 1_000_000_000 {
            Some(Rgb { r: 52, g: 152, b: 219 })
        } else if size > 100_000_000 {
            Some(Rgb { r: 100, g: 170, b: 220 })
        } else {
            None
        }),
{
    if size > 1_000_000_000 {
        Some(Rgb { r: 52, g: 152, b: 219 })
    } else if size > 100_000_000 {
        Some(Rgb { r: 100, g: 170, b: 220 })
    } else {
        None
    }
}

/// A click opens or closes a group, and a directory that is clicked on its mark; any other
/// click selects, as the keys say. It asks for nothing else, and focuses the row.
pub proof fn lemma_click(
    row: CachedRow,
    on_mark: bool,
    shift: bool,
    toggle: bool,
    actions: Vec<TreeAction>,
)
    requires
        call_ensures(row_clicked, (&row, on_mark, shift, toggle), actions),
    ensures
        ({
            let asked = wishes(actions@);
            let at = row.path.place();
            &&& asked.len() == 2
            &&& asked[1] == Wish::Focus(at)
            &&& asked[0] == Wish::ToggleFileGroup(at) <==> row.is_file_group
            &&& asked[0] == Wish::ToggleExpand(at) <==> !row.is_file_group && row.is_dir
                && on_mark
            &&& asked[0] is Click ==> asked[0] == (Wish::Click { path: at, shift, toggle })
            &&& !row.is_file_group && !(row.is_dir && on_mark) ==> asked[0] is Click
        }),
{
}

/// The menu of a selected row is about all that are selected, that of another about the
/// row alone; the other button selects a row that is not selected.
pub proof fn lemma_menu_about(
    row: CachedRow,
    selected: PathSet,
    count: usize,
    actions: Vec<TreeAction>,
)
    requires
        call_ensures(selection_count, (&row, &selected), count),
        call_ensures(row_secondary_clicked, (&row, &selected), actions),
    ensures
        selected@.contains(row.path@) ==> count == selected@.len() && wishes(actions@).len() == 1,
        !selected@.contains(row.path@) ==> count == 1 && wishes(actions@)[0] == (Wish::Click {
            path: row.path.place(),
            shift: false,
            toggle: false,
        }),
        wishes(actions@).last() == Wish::Focus(row.path.place()),
{
}

/// A menu about several rows has no entry about one, and the other way round; every menu
/// can move to the trash and delete for good.
pub proof fn lemma_menu(count: nat)
    ensures
        ({
            let entries = menu_entries(count);
            let several = entries.contains(MenuEntry::TrashSelected);
            let one = entries.contains(MenuEntry::Trash);
            &&& count > 1 <==> several
            &&& count <= 1 <==> one
            &&& several <==> entries.contains(MenuEntry::DeleteSelected)
            &&& one <==> entries.contains(MenuEntry::Delete)
            &&& one <==> entries.contains(MenuEntry::Reveal)
            &&& one <==> entries.contains(MenuEntry::CopyPath)
        }),
{
    let entries = menu_entries(count);
    if count > 1 {
        assert(entries[0] == MenuEntry::TrashSelected);
        assert(entries[1] == MenuEntry::DeleteSelected);
    } else {
        assert(entries[0] == MenuEntry::Reveal);
        assert(entries[1] == MenuEntry::CopyPath);
        assert(entries[2] == MenuEntry::Trash);
        assert(entries[3] == MenuEntry::Delete);
    }
}

/// What an entry of the menu says it does is what it asks for: only those that name the
/// trash move there, and those that delete for good ask first.
pub proof fn lemma_menu_action(entry: MenuEntry, path: NodePath, action: TreeAction)
    requires
        call_ensures(MenuEntry::action, (entry, &path), action),
    ensures
        action@ == Wish::Trash(path.place()) <==> entry == MenuEntry::Trash,
        action@ == Wish::TrashSelected <==> entry == MenuEntry::TrashSelected,
        action@ == Wish::ConfirmDelete(path.place()) <==> entry == MenuEntry::Delete,
        action@ == Wish::ConfirmDeleteSelected <==> entry == MenuEntry::DeleteSelected,
        action@ == Wish::CopyPath(path.place()) <==> entry == MenuEntry::CopyPath,
        action@ == Wish::RevealInFinder(path.place()) <==> entry == MenuEntry::Reveal,
        entry.title(2) == "Move to Trash"@ ==> action@ == Wish::Trash(path.place()),
        entry.title(2) == "Delete Permanently"@ ==> action@ == Wish::ConfirmDelete(path.place()),
{
    reveal_strlit("Move to Trash");
    reveal_strlit("Delete Permanently");
    reveal_strlit("Move ");
    reveal_strlit("Delete ");
    reveal_strlit(" Items to Trash");
    reveal_strlit(" Items Permanently");
    reveal_strlit("Open in Finder");
    reveal_strlit("Copy Path");
    text::lemma_decimal_reads_back(2);
    assert(text::decimal(2)[0] <= '9');
    assert(MenuEntry::TrashSelected.title(2)[5] == text::decimal(2)[0]);
    assert(MenuEntry::DeleteSelected.title(2)[7] == text::decimal(2)[0]);
    assert("Move to Trash"@[5] == 't');
    assert("Delete Permanently"@[7] == 'P');
    assert("Move to Trash"@[0] == 'M' && "Delete Permanently"@[0] == 'D');
    assert("Open in Finder"@[0] == 'O' && "Copy Path"@[0] == 'C');
    assert(MenuEntry::TrashSelected.title(2)[0] == 'M');
    assert(MenuEntry::DeleteSelected.title(2)[0] == 'D');
}

/// A row shows that it is selected, that it is focused, and, where it is neither, that the
/// pointer is on it.
pub proof fn lemma_highlight(selected: bool, focused: bool, hovered: bool, shown: Highlight)
    requires
        call_ensures(highlight, (selected, focused, hovered), shown),
    ensures
        selected <==> shown == Highlight::Selected || shown == Highlight::SelectedFocused,
        focused <==> shown == Highlight::Focused || shown == Highlight::SelectedFocused,
        shown == Highlight::Hovered <==> hovered && !selected && !focused,
{
}

/// A bar is drawn for large nodes only, those above a tenth of a thousand million bytes,
/// and a larger node has one wherever a smaller one has; above a thousand million bytes
/// all bars look the same, and below that differently.
pub proof fn lemma_bars(a: u64, b: u64, small: Option<Rgb>, large: Option<Rgb>)
    requires
        a <= b,
        call_ensures(bar_color, (a,), small),
        call_ensures(bar_color, (b,), large),
    ensures
        small is Some <==> a > 100_000_000,
        small is Some ==> large is Some,
        small is Some ==> (small == large <==> a > 1_000_000_000 || b <= 1_000_000_000),
{
}

} // verus!
