//! What the keys do on each screen.

use vstd::prelude::*;

use crate::keys::Key;
use crate::menu::{
    DirEntry, DirEntryView, FlatNode, FlatNodeKind, FlatRow, ItemState, Menu, MenuView,
};
use crate::path::{same_path, BootPath};
use crate::sort::views;
use crate::treeview::{or_same, NodeKind, NodeSourceState, RowKind, ShownState, TreeView, ViewState};
use crate::types::{Entry, EntryView};

verus! {

/// A screen of the menu.
#[derive(Debug)]
pub enum Screen {
    /// Top-level source list.
    Sources(Menu),
    /// Boot tree for a specific source. `source_idx` tracks which source.
    BootTree {
        source_idx: usize,
        source_label: String,
        /// Flattened tree items with indentation level.
        menu: Menu,
        /// Map from menu index to tree path info.
        nodes: Vec<FlatNode>,
    },
    /// Entry list for a specific leaf.
    Entries {
        source_idx: usize,
        source_label: String,
        leaf_label: String,
        leaf_path: BootPath,
        menu: Menu,
        entries: Vec<Entry>,
    },
    /// Passphrase prompt for an encrypted source.
    Passphrase {
        source_idx: usize,
        source_label: String,
        input: String,
        error: Option<String>,
    },
    /// Full filesystem browser for a source.
    FileBrowser {
        source_idx: usize,
        source_label: String,
        /// Current directory being browsed.
        current_dir: BootPath,
        /// Root of the mount (can't go above this).
        root: BootPath,
        menu: Menu,
        /// Directory entries corresponding to menu items.
        dir_entries: Vec<DirEntry>,
    },
}

/// Result of processing a key in the current screen.
#[derive(Debug)]
pub enum Action {
    /// Stay on current screen (key was handled, re-render).
    Redraw,
    /// No change needed.
    Ignored,
    /// Navigate to source's boot tree.
    OpenSource(usize),
    /// Navigate to leaf's entries.
    OpenLeaf(usize),
    /// Boot the selected entry.
    Boot { source_idx: usize, entry: Entry },
    /// Go back one screen.
    Back,
    /// Quit the menu.
    Quit,
    /// Navigate to passphrase prompt for an encrypted source.
    UnlockSource(usize),
    /// Submit entered passphrase.
    SubmitPassphrase,
    /// Open full filesystem browser for the current source.
    OpenFileBrowser,
    /// Navigate into a directory in the file browser.
    OpenDir(usize),
    /// Go up one directory in the file browser.
    DirUp,
    /// Boot a file directly from the file browser (kexec a bare kernel).
    BootFile { path: BootPath },
    /// Look for sources again.
    RefreshSources,
    /// Leave for a rescue shell.
    DropToShell,
}

/// The model of an action.
pub enum ActionView {
    Redraw,
    Ignored,
    OpenSource(int),
    OpenLeaf(int),
    Boot { source_idx: int, entry: EntryView },
    Back,
    Quit,
    UnlockSource(int),
    SubmitPassphrase,
    OpenFileBrowser,
    OpenDir(int),
    DirUp,
    BootFile { path: Seq<u8> },
    RefreshSources,
    DropToShell,
}

impl View for Action {
    type V = ActionView;

    open spec fn view(&self) -> ActionView {
        match self {
            Action::Redraw => ActionView::Redraw,
            Action::Ignored => ActionView::Ignored,
            Action::OpenSource(i) => ActionView::OpenSource(*i as int),
            Action::OpenLeaf(i) => ActionView::OpenLeaf(*i as int),
            Action::Boot { source_idx, entry } => ActionView::Boot {
                source_idx: *source_idx as int,
                entry: entry@,
            },
            Action::Back => ActionView::Back,
            Action::Quit => ActionView::Quit,
            Action::UnlockSource(i) => ActionView::UnlockSource(*i as int),
            Action::SubmitPassphrase => ActionView::SubmitPassphrase,
            Action::OpenFileBrowser => ActionView::OpenFileBrowser,
            Action::OpenDir(i) => ActionView::OpenDir(*i as int),
            Action::DirUp => ActionView::DirUp,
            Action::BootFile { path } => ActionView::BootFile { path: path@ },
            Action::RefreshSources => ActionView::RefreshSources,
            Action::DropToShell => ActionView::DropToShell,
        }
    }
}

/// What the arrow keys do to a menu.
pub open spec fn menu_after(menu: MenuView, key: Key) -> MenuView {
    match key {
        Key::Up => menu.up(),
        Key::Down => menu.down(),
        _ => menu,
    }
}

/// Moves the cursor of a menu if the key is an arrow key that does so.
fn move_in_menu(menu: &mut Menu, key: &Key) -> (r: bool)
    requires
        *key == Key::Down ==> old(menu).cursor < usize::MAX,
    ensures
        final(menu)@ == menu_after(old(menu)@, *key),
        !r ==> *final(menu) == *old(menu),
        r == (*key == Key::Up || *key == Key::Down),
{
    match key {
        Key::Up => {
            menu.move_up();
            true
        },
        Key::Down => {
            menu.move_down();
            true
        },
        _ => false,
    }
}

// --- Source list ---

/// What a key does on the source list. A source in an error state can be tried.
pub open spec fn source_action(menu: MenuView, key: Key) -> ActionView {
    match key {
        Key::Up => ActionView::Redraw,
        Key::Down => ActionView::Redraw,
        Key::Enter => if menu.cursor < menu.items.len() && menu.items[menu.cursor].state is Locked {
            ActionView::UnlockSource(menu.cursor)
        } else {
            ActionView::OpenSource(menu.cursor)
        },
        Key::Char(c) => if c == 'q' || c == 'Q' {
            ActionView::Quit
        } else {
            ActionView::Ignored
        },
        _ => ActionView::Ignored,
    }
}

/// Handle a key press on a source list screen.
pub fn handle_source_key(menu: &mut Menu, key: &Key) -> (r: Action)
    requires
        *key == Key::Down ==> old(menu).cursor < usize::MAX,
    ensures
        final(menu)@ == menu_after(old(menu)@, *key),
        r@ == source_action(old(menu)@, *key),
{
    if move_in_menu(menu, key) {
        return Action::Redraw;
    }
    match key {
        Key::Enter => {
            let idx: usize = menu.selected_index();
            if idx < menu.items.len() {
                assert(menu@.items[idx as int] == menu.items@[idx as int]@);
                match &menu.items[idx].state {
                    ItemState::Locked => Action::UnlockSource(idx),
                    _ => Action::OpenSource(idx),
                }
            } else {
                Action::OpenSource(idx)
            }
        },
        Key::Char(c) => if *c == 'q' || *c == 'Q' {
            Action::Quit
        } else {
            Action::Ignored
        },
        _ => Action::Ignored,
    }
}

// --- Boot tree ---

/// What a key does on the boot tree.
pub open spec fn tree_action(menu: MenuView, nodes: Seq<FlatRow>, key: Key) -> ActionView {
    match key {
        Key::Up => ActionView::Redraw,
        Key::Down => ActionView::Redraw,
        Key::Enter => if menu.cursor < nodes.len() && nodes[menu.cursor].kind is Leaf {
            ActionView::OpenLeaf(menu.cursor)
        } else {
            ActionView::Ignored
        },
        Key::Escape => ActionView::Back,
        Key::Char(c) => if c == 'f' || c == 'F' {
            ActionView::OpenFileBrowser
        } else {
            ActionView::Ignored
        },
        _ => ActionView::Ignored,
    }
}

/// Handle a key press on a boot tree screen.
pub fn handle_tree_key(menu: &mut Menu, nodes: &[FlatNode], key: &Key) -> (r: Action)
    requires
        *key == Key::Down ==> old(menu).cursor < usize::MAX,
    ensures
        final(menu)@ == menu_after(old(menu)@, *key),
        r@ == tree_action(old(menu)@, views(nodes@), *key),
{
    if move_in_menu(menu, key) {
        return Action::Redraw;
    }
    match key {
        Key::Enter => {
            let idx: usize = menu.selected_index();
            if idx < nodes.len() {
                assert(views(nodes@)[idx as int] == nodes@[idx as int]@);
                match &nodes[idx].kind {
                    FlatNodeKind::Leaf { .. } => Action::OpenLeaf(idx),
                    FlatNodeKind::Dir { .. } => Action::Ignored,
                }
            } else {
                Action::Ignored
            }
        },
        Key::Escape => Action::Back,
        Key::Char(c) => if *c == 'f' || *c == 'F' {
            Action::OpenFileBrowser
        } else {
            Action::Ignored
        },
        _ => Action::Ignored,
    }
}

// --- Entry list ---

/// What a key does on the entry list.
pub open spec fn entry_action(
    menu: MenuView,
    entries: Seq<EntryView>,
    source_idx: int,
    key: Key,
) -> ActionView {
    match key {
        Key::Up => ActionView::Redraw,
        Key::Down => ActionView::Redraw,
        Key::Enter => if menu.cursor < entries.len() {
            ActionView::Boot { source_idx, entry: entries[menu.cursor] }
        } else {
            ActionView::Ignored
        },
        Key::Escape => ActionView::Back,
        _ => ActionView::Ignored,
    }
}

/// Handle a key press on an entry list screen.
pub fn handle_entry_key(menu: &mut Menu, entries: &[Entry], source_idx: usize, key: &Key) -> (r:
    Action)
    requires
        *key == Key::Down ==> old(menu).cursor < usize::MAX,
    ensures
        final(menu)@ == menu_after(old(menu)@, *key),
        r@ == entry_action(old(menu)@, views(entries@), source_idx as int, *key),
{
    if move_in_menu(menu, key) {
        return Action::Redraw;
    }
    match key {
        Key::Enter => {
            let idx: usize = menu.selected_index();
            if idx < entries.len() {
                assert(views(entries@)[idx as int] == entries@[idx as int]@);
                Action::Boot { source_idx, entry: entries[idx].clone() }
            } else {
                Action::Ignored
            }
        },
        Key::Escape => Action::Back,
        _ => Action::Ignored,
    }
}

// --- Passphrase prompt ---

/// The passphrase after a key.
pub open spec fn typed(input: Seq<char>, key: Key) -> Seq<char> {
    match key {
        Key::Char(c) => input.push(c),
        Key::Backspace => if input.len() > 0 {
            input.drop_last()
        } else {
            input
        },
        _ => input,
    }
}

/// What a key does on the passphrase prompt.
pub open spec fn passphrase_action(key: Key) -> ActionView {
    match key {
        Key::Char(_) => ActionView::Redraw,
        Key::Backspace => ActionView::Redraw,
        Key::Enter => ActionView::SubmitPassphrase,
        Key::Escape => ActionView::Back,
        _ => ActionView::Ignored,
    }
}

/// Handle a key press on the passphrase prompt screen.
pub fn handle_passphrase_key(input: &mut String, key: &Key) -> (r: Action)
    ensures
        final(input)@ == typed(old(input)@, *key),
        r@ == passphrase_action(*key),
{
    match key {
        Key::Char(c) => {
            input.push(*c);
            Action::Redraw
        },
        Key::Backspace => {
            let _ = input.pop();
            Action::Redraw
        },
        Key::Enter => Action::SubmitPassphrase,
        Key::Escape => Action::Back,
        _ => Action::Ignored,
    }
}

/// A character that is typed and then taken back leaves the passphrase as it
/// was.
pub proof fn backspace_undoes_character(input: Seq<char>, c: char)
    ensures
        typed(typed(input, Key::Char(c)), Key::Backspace) == input,
{
    assert(input.push(c).drop_last() =~= input);
}

// --- File browser ---

/// What a key does in the file browser. A leaf directory opens its entries. Going
/// back goes up one directory, until the root is reached.
pub open spec fn file_browser_action(
    menu: MenuView,
    dir_entries: Seq<DirEntryView>,
    current_dir: Seq<u8>,
    root: Seq<u8>,
    key: Key,
) -> ActionView {
    match key {
        Key::Up => ActionView::Redraw,
        Key::Down => ActionView::Redraw,
        Key::Enter => if menu.cursor >= dir_entries.len() {
            ActionView::Ignored
        } else if dir_entries[menu.cursor].is_dir && dir_entries[menu.cursor].is_leaf {
            ActionView::OpenLeaf(menu.cursor)
        } else if dir_entries[menu.cursor].is_dir {
            ActionView::OpenDir(menu.cursor)
        } else if dir_entries[menu.cursor].is_bootable {
            ActionView::BootFile { path: dir_entries[menu.cursor].path }
        } else {
            ActionView::Ignored
        },
        _ => if key == Key::Escape || key == Key::Char('b') || key == Key::Char('B') {
            if same_path(current_dir, root) {
                ActionView::Back
            } else {
                ActionView::DirUp
            }
        } else {
            ActionView::Ignored
        },
    }
}

/// Handle a key press on the file browser screen.
pub fn handle_file_browser_key(
    menu: &mut Menu,
    dir_entries: &[DirEntry],
    current_dir: &BootPath,
    root: &BootPath,
    key: &Key,
) -> (r: Action)
    requires
        *key == Key::Down ==> old(menu).cursor < usize::MAX,
    ensures
        final(menu)@ == menu_after(old(menu)@, *key),
        r@ == file_browser_action(
            old(menu)@,
            views(dir_entries@),
            current_dir@,
            root@,
            *key,
        ),
{
    if move_in_menu(menu, key) {
        return Action::Redraw;
    }
    let leaves = match key {
        Key::Escape => true,
        Key::Char(c) => *c == 'b' || *c == 'B',
        _ => false,
    };
    if leaves {
        return if current_dir.is_same(root) {
            Action::Back
        } else {
            Action::DirUp
        };
    }
    match key {
        Key::Enter => {
            let idx: usize = menu.selected_index();
            if idx < dir_entries.len() {
                let entry = &dir_entries[idx];
                assert(views(dir_entries@)[idx as int] == entry@);
                if entry.is_dir && entry.is_leaf {
                    Action::OpenLeaf(idx)
                } else if entry.is_dir {
                    Action::OpenDir(idx)
                } else if entry.is_bootable {
                    Action::BootFile { path: entry.path.clone() }
                } else {
                    Action::Ignored
                }
            } else {
                Action::Ignored
            }
        },
        _ => Action::Ignored,
    }
}

// --- Tree view ---

/// The tree view after a key: up and down move, right opens, left closes or moves
/// to the parent, and Enter opens or closes a node that is neither an entry nor a
/// locked source.
pub open spec fn view_after(v: ViewState, key: Key) -> ViewState {
    match key {
        Key::Up => v.up(),
        Key::Down => v.down(),
        Key::Right => or_same(v.expand(), v),
        Key::Left => or_same(v.collapse(), v),
        Key::Enter => or_same(v.toggle(), v),
        _ => v,
    }
}

/// What a key does on the tree view. Enter on a source in an error state tries to
/// open it.
pub open spec fn tree_view_action(v: ViewState, key: Key) -> ActionView {
    match key {
        Key::Up => ActionView::Redraw,
        Key::Down => ActionView::Redraw,
        Key::Right => ActionView::Redraw,
        Key::Left => ActionView::Redraw,
        Key::Enter => if !(0 <= v.cursor < v.rows.len()) {
            ActionView::Ignored
        } else {
            match v.rows[v.cursor].kind {
                RowKind::Entry { entry, source_idx } => ActionView::Boot { source_idx, entry },
                RowKind::Source { idx, state: ShownState::Encrypted, .. } =>
                    ActionView::UnlockSource(idx),
                RowKind::Source { idx, state: ShownState::Error(_), .. } => ActionView::OpenSource(
                    idx,
                ),
                _ => if v.toggle() is Some {
                    ActionView::Redraw
                } else {
                    ActionView::Ignored
                },
            }
        },
        Key::Char(c) => if c == 'f' || c == 'F' {
            ActionView::OpenFileBrowser
        } else if c == 's' || c == 'S' {
            ActionView::DropToShell
        } else if c == 'r' || c == 'R' {
            ActionView::RefreshSources
        } else if c == 'q' || c == 'Q' {
            ActionView::Quit
        } else {
            ActionView::Ignored
        },
        _ => ActionView::Ignored,
    }
}

/// Handle a key press on the tree view.
pub fn handle_tree_view_key(view: &mut TreeView, key: &Key) -> (r: Action)
    requires
        *key == Key::Down ==> old(view).cursor < usize::MAX,
        *key == Key::Up ==> old(view).cursor <= old(view).nodes@.len(),
    ensures
        final(view).state() == view_after(old(view).state(), *key),
        r@ == tree_view_action(old(view).state(), *key),
{
    match key {
        Key::Up => {
            view.move_up();
            Action::Redraw
        },
        Key::Down => {
            view.move_down();
            Action::Redraw
        },
        Key::Right => {
            let _ = view.expand();
            Action::Redraw
        },
        Key::Left => {
            let _ = view.collapse();
            Action::Redraw
        },
        Key::Enter => {
            if view.cursor < view.nodes.len() {
                assert(view.rows()[view.cursor as int] == view.nodes@[view.cursor as int]@);
                match &view.nodes[view.cursor].kind {
                    NodeKind::Entry { entry, source_idx } => {
                        return Action::Boot { source_idx: *source_idx, entry: entry.clone() };
                    },
                    NodeKind::Source { idx, label: _, state: NodeSourceState::Encrypted } => {
                        return Action::UnlockSource(*idx);
                    },
                    NodeKind::Source { idx, label: _, state: NodeSourceState::Error(_) } => {
                        return Action::OpenSource(*idx);
                    },
                    _ => {},
                }
            }
            if view.toggle() {
                Action::Redraw
            } else {
                Action::Ignored
            }
        },
        Key::Char(c) => if *c == 'f' || *c == 'F' {
            Action::OpenFileBrowser
        } else if *c == 's' || *c == 'S' {
            Action::DropToShell
        } else if *c == 'r' || *c == 'R' {
            Action::RefreshSources
        } else if *c == 'q' || *c == 'Q' {
            Action::Quit
        } else {
            Action::Ignored
        },
        _ => Action::Ignored,
    }
}

} // verus!
