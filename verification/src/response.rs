//! What the menu does when a key is pressed: where the cursor goes, what is asked
//! for, and what is chosen.

use vstd::prelude::*;

use crate::boot::{leaf_at, ResultView};
use crate::display::{
    every_item_is_on_the_screen, standing_in_is_transitive, stands_at_end, stands_in,
    stands_in_front,
};
use crate::keys::Key;
use crate::menu::{
    dir_entries_of, entry_menu, file_menu, DirEntryView, FlatRow, ListedFile, Mark, MenuView,
};
use crate::path::{parent_of, same_path};
use crate::render::{browsed_path, menu_screen, passphrase_screen, tree_view_screen};
use crate::screen::{
    entry_action, file_browser_action, menu_after, passphrase_action, source_action, tree_action,
    tree_view_action, typed, view_after, ActionView,
};
use crate::select::default_selection;
use crate::session::{
    after_leaf, after_listing, after_open, after_rescan, after_unlock, pressed, screen_of,
    RequestView, SessionState, SideView,
};
use crate::tree::{entries_of, DirItem};
use crate::treeview::{built, source_at, RowKind, ShownState, ViewState};
use crate::types::{EntryView, ErrorView, IoFailure, SourceView, TreeNodeView};

verus! {

// --- The menus ---

/// The arrow keys move the cursor by one item and stop at the ends; no other key
/// moves it, and no key changes the items.
pub proof fn arrows_move_by_one(m: MenuView, key: Key)
    requires
        m.is_sound(),
    ensures
        menu_after(m, key).items == m.items,
        menu_after(m, key).preselected == m.preselected,
        key == Key::Up && m.cursor > 0 ==> menu_after(m, key).cursor == m.cursor - 1,
        key == Key::Up && m.cursor == 0 ==> menu_after(m, key).cursor == 0,
        key == Key::Down && m.cursor + 1 < m.items.len() ==> menu_after(m, key).cursor == m.cursor
            + 1,
        key == Key::Down && m.cursor + 1 >= m.items.len() ==> menu_after(m, key).cursor == m.cursor,
        key != Key::Up && key != Key::Down ==> menu_after(m, key) == m,
{
}

/// In the menu of sources, Enter asks for the source under the cursor: to unlock it
/// exactly if it is locked, else to open it. Only q leaves the menu.
pub proof fn source_keys(m: MenuView, key: Key)
    requires
        m.is_sound(),
        m.items.len() > 0,
    ensures
        ({
            let action = source_action(m, key);
            let locked = m.items[m.cursor].state is Locked;
            &&& action == ActionView::UnlockSource(m.cursor) <==> key == Key::Enter && locked
            &&& action == ActionView::OpenSource(m.cursor) <==> key == Key::Enter && !locked
            &&& action is UnlockSource || action is OpenSource <==> key == Key::Enter
            &&& action is Quit <==> key == Key::Char('q') || key == Key::Char('Q')
            &&& action is Redraw <==> key == Key::Up || key == Key::Down
            &&& action is Ignored || action is UnlockSource || action is OpenSource || action
                is Quit || action is Redraw
        }),
{
}

/// In the menu of a boot tree, Enter opens the leaf under the cursor and does nothing
/// on a directory; Escape goes back and f shows the files.
pub proof fn tree_keys(m: MenuView, rows: Seq<FlatRow>, key: Key)
    requires
        m.is_sound(),
        m.items.len() == rows.len(),
        rows.len() > 0,
    ensures
        ({
            let action = tree_action(m, rows, key);
            &&& action == ActionView::OpenLeaf(m.cursor) <==> key == Key::Enter
                && rows[m.cursor].kind is Leaf
            &&& action is OpenLeaf ==> key == Key::Enter
            &&& action is Back <==> key == Key::Escape
            &&& action is OpenFileBrowser <==> key == Key::Char('f') || key == Key::Char('F')
            &&& action is Redraw <==> key == Key::Up || key == Key::Down
            &&& action is Ignored || action is OpenLeaf || action is Back || action
                is OpenFileBrowser || action is Redraw
        }),
{
}

/// In the menu of entries, Enter boots the entry under the cursor, from the source
/// that the menu belongs to; Escape goes back.
pub proof fn entry_keys(m: MenuView, entries: Seq<EntryView>, source_idx: int, key: Key)
    requires
        m.is_sound(),
        m.items.len() == entries.len(),
        entries.len() > 0,
    ensures
        ({
            let action = entry_action(m, entries, source_idx, key);
            &&& action == (ActionView::Boot { source_idx, entry: entries[m.cursor] }) <==> key
                == Key::Enter
            &&& action is Boot ==> key == Key::Enter
            &&& action is Back <==> key == Key::Escape
            &&& action is Redraw <==> key == Key::Up || key == Key::Down
            &&& action is Ignored || action is Boot || action is Back || action is Redraw
        }),
{
}

/// At the prompt every character is added to the passphrase, q and the others too;
/// Backspace takes the last one away; Enter submits it and Escape gives up.
pub proof fn passphrase_keys(input: Seq<char>, key: Key, c: char)
    ensures
        typed(input, Key::Char(c)) == input.push(c),
        input.len() > 0 ==> typed(input, Key::Backspace) == input.take(input.len() - 1),
        input.len() == 0 ==> typed(input, Key::Backspace) == input,
        !(key is Char) && key != Key::Backspace ==> typed(input, key) == input,
        passphrase_action(key) is SubmitPassphrase <==> key == Key::Enter,
        passphrase_action(key) is Back <==> key == Key::Escape,
        passphrase_action(key) is Redraw <==> key is Char || key == Key::Backspace,
        passphrase_action(key) is SubmitPassphrase || passphrase_action(key) is Back
            || passphrase_action(key) is Redraw || passphrase_action(key) is Ignored,
{
    if input.len() > 0 {
        assert(input.drop_last() =~= input.take(input.len() - 1));
    }
}

/// In the file browser, Enter opens the directory under the cursor, as a leaf if it is
/// one, or boots the file under it if that can be booted. Escape and b go up, and from
/// the root back.
pub proof fn file_keys(
    m: MenuView,
    files: Seq<DirEntryView>,
    current_dir: Seq<u8>,
    root: Seq<u8>,
    key: Key,
)
    requires
        m.is_sound(),
        m.items.len() == files.len(),
        files.len() > 0,
    ensures
        ({
            let action = file_browser_action(m, files, current_dir, root, key);
            let at = files[m.cursor];
            let up = key == Key::Escape || key == Key::Char('b') || key == Key::Char('B');
            &&& action == ActionView::OpenLeaf(m.cursor) <==> key == Key::Enter && at.is_dir
                && at.is_leaf
            &&& action == ActionView::OpenDir(m.cursor) <==> key == Key::Enter && at.is_dir
                && !at.is_leaf
            &&& action == (ActionView::BootFile { path: at.path }) <==> key == Key::Enter
                && !at.is_dir && at.is_bootable
            &&& action is OpenLeaf || action is OpenDir || action is BootFile ==> key == Key::Enter
            &&& action is Back <==> up && same_path(current_dir, root)
            &&& action is DirUp <==> up && !same_path(current_dir, root)
            &&& action is Redraw <==> key == Key::Up || key == Key::Down
            &&& action is Ignored || action is OpenLeaf || action is OpenDir || action is BootFile
                || action is Back || action is DirUp || action is Redraw
        }),
{
}

/// In the tree view, Enter boots the entry under the cursor, asks for the passphrase of
/// a locked source, and tries to open one with an error; the letters have their
/// meanings in either case, and no other key chooses anything.
pub proof fn tree_view_keys(v: ViewState, key: Key)
    requires
        0 <= v.cursor < v.rows.len(),
    ensures
        ({
            let action = tree_view_action(v, key);
            let kind = v.rows[v.cursor].kind;
            &&& action is Boot <==> key == Key::Enter && kind is Entry
            &&& action matches ActionView::Boot { source_idx, entry } ==> kind == (
            RowKind::Entry { entry, source_idx })
            &&& action is UnlockSource <==> key == Key::Enter && kind is Source
                && kind->Source_state is Encrypted
            &&& action matches ActionView::UnlockSource(i) ==> i == kind->Source_idx
            &&& action is OpenSource <==> key == Key::Enter && kind is Source
                && kind->Source_state is Error
            &&& action matches ActionView::OpenSource(i) ==> i == kind->Source_idx
            &&& action is OpenFileBrowser <==> key == Key::Char('f') || key == Key::Char('F')
            &&& action is DropToShell <==> key == Key::Char('s') || key == Key::Char('S')
            &&& action is RefreshSources <==> key == Key::Char('r') || key == Key::Char('R')
            &&& action is Quit <==> key == Key::Char('q') || key == Key::Char('Q')
            &&& !(action is Back || action is OpenDir || action is OpenLeaf || action is DirUp
                || action is BootFile || action is SubmitPassphrase)
        }),
{
}

/// In the tree view the arrows up and down move the cursor, those to the sides fold
/// and unfold, Enter folds or unfolds, and no other key changes the view.
pub proof fn tree_view_moves(v: ViewState, key: Key)
    ensures
        view_after(v, Key::Up) == v.up(),
        view_after(v, Key::Down) == v.down(),
        view_after(v, Key::Right) == (if v.expand() is Some {
            v.expand()->0
        } else {
            v
        }),
        view_after(v, Key::Left) == (if v.collapse() is Some {
            v.collapse()->0
        } else {
            v
        }),
        view_after(v, Key::Enter) == (if v.toggle() is Some {
            v.toggle()->0
        } else {
            v
        }),
        key is Char || key == Key::Escape || key == Key::Backspace || key == Key::Unknown
            ==> view_after(v, key) == v,
{
}

// --- The session ---

/// Enter on an entry in the tree view boots that entry, from the nearest leaf above it
/// and the source it belongs to.
pub proof fn enter_boots_the_entry(s: SessionState, leaf_path: Seq<u8>)
    requires
        s.is_sound(),
        s.side is None,
        0 <= s.view.cursor < s.view.rows.len(),
        s.view.rows[s.view.cursor].kind is Entry,
        leaf_at(s.view.rows, s.view.cursor) == Some(leaf_path),
    ensures
        pressed(s, Key::Enter).request == RequestView::Finish(
            ResultView::Boot {
                leaf_path,
                entry: s.view.rows[s.view.cursor].kind->Entry_entry,
                source_idx: s.view.rows[s.view.cursor].kind->Entry_source_idx,
            },
        ),
{
}

/// Enter on a locked source shows an empty prompt for that source; the view stays as it
/// is, and nothing is asked for yet.
pub proof fn enter_prompts_for_a_locked_source(s: SessionState)
    requires
        s.is_sound(),
        s.side is None,
        0 <= s.view.cursor < s.view.rows.len(),
        s.view.rows[s.view.cursor].kind matches RowKind::Source {
            state: ShownState::Encrypted,
            ..
        },
    ensures
        ({
            let i = s.view.rows[s.view.cursor].kind->Source_idx;
            let r = pressed(s, Key::Enter);
            &&& r.request is Wait
            &&& r.state.view == s.view
            &&& r.state.sources == s.sources
            &&& r.state.side == Some(
                SideView::Passphrase {
                    source_idx: i,
                    source_label: s.sources[i].label,
                    input: Seq::empty(),
                    error: None,
                },
            )
        }),
{
}

/// Enter on a source with an error tries to open the device of that source.
pub proof fn enter_opens_a_source_with_an_error(s: SessionState)
    requires
        s.is_sound(),
        s.side is None,
        0 <= s.view.cursor < s.view.rows.len(),
        s.view.rows[s.view.cursor].kind matches RowKind::Source { state: ShownState::Error(_), .. },
    ensures
        ({
            let i = s.view.rows[s.view.cursor].kind->Source_idx;
            pressed(s, Key::Enter).request == (RequestView::Open {
                source_idx: i,
                device: s.sources[i].device,
            })
        }),
{
}

/// At the prompt, Enter asks to unlock the source that it was opened for with what was
/// typed; Escape leaves the prompt and changes nothing else; nothing else asks for
/// anything.
pub proof fn prompt_unlocks_its_source(s: SessionState, key: Key)
    requires
        s.is_sound(),
        s.side is Some,
        s.side->0 is Passphrase,
    ensures
        ({
            let r = pressed(s, key);
            let i = s.side->0->Passphrase_source_idx;
            let input = s.side->0->Passphrase_input;
            &&& key == Key::Enter ==> r.request == (RequestView::Unlock {
                device: s.sources[i].device,
                passphrase: input,
            }) && r.state == s
            &&& key == Key::Escape ==> r.request is Wait && r.state == (SessionState {
                side: None,
                ..s
            })
            &&& key != Key::Enter ==> r.request is Wait
            &&& r.state.sources == s.sources
            &&& r.state.trees == s.trees
            &&& r.state.view == s.view
            &&& r.state.default == s.default
            &&& key is Char ==> r.state.side == Some(
                SideView::Passphrase {
                    source_idx: i,
                    source_label: s.side->0->Passphrase_source_label,
                    input: input.push(key->Char_0),
                    error: s.side->0->Passphrase_error,
                },
            )
        }),
{
}

/// A passphrase that is wrong leaves the prompt open for the same source, empty, and
/// with the error.
pub proof fn wrong_passphrase_is_told(
    s: SessionState,
    e: ErrorView,
    boot: Option<Result<Vec<DirItem>, IoFailure>>,
)
    requires
        s.side is Some,
        s.side->0 is Passphrase,
    ensures
        after_unlock(s, Err(e), boot).side == Some(
            SideView::Passphrase {
                source_idx: s.side->0->Passphrase_source_idx,
                source_label: s.side->0->Passphrase_source_label,
                input: Seq::empty(),
                error: Some(e.text()),
            },
        ),
        after_unlock(s, Err(e), boot).sources == s.sources,
        after_unlock(s, Err(e), boot).trees == s.trees,
        after_unlock(s, Err(e), boot).view == s.view,
{
}

/// What opening a source changes: that source is mounted and has the tree that was
/// found; its device, its label and its passphrase, and every other source, stay.
pub proof fn opening_changes_one_source(
    s: SessionState,
    i: int,
    mount_point: Seq<u8>,
    boot: Option<Result<Vec<DirItem>, IoFailure>>,
    j: int,
)
    requires
        s.is_sound(),
        0 <= i < s.sources.len(),
        0 <= j < s.sources.len(),
    ensures
        ({
            let after = after_open(s, i, Ok(mount_point), boot);
            &&& after.default == s.default
            &&& after.side == s.side
            &&& after.sources.len() == s.sources.len()
            &&& after.trees.len() == s.trees.len()
            &&& j != i ==> after.sources[j] == s.sources[j] && after.trees[j] == s.trees[j]
            &&& after.sources[i].state is Mounted
            &&& after.sources[i].mount_point == Some(mount_point)
            &&& after.sources[i].passphrase == s.sources[i].passphrase
            &&& after.sources[i].device == s.sources[i].device
            &&& after.sources[i].label == s.sources[i].label
        }),
{
}

/// The letters do the same wherever the cursor is in the tree view: q leaves the menu, r
/// looks for the sources again, s goes to the rescue shell where there is one, and f
/// lists the mount point of the source of the row where the filesystem can be viewed.
pub proof fn letters_in_the_tree_view(s: SessionState)
    requires
        s.is_sound(),
        s.side is None,
    ensures
        pressed(s, Key::Char('q')).request == RequestView::Finish(ResultView::Quit),
        pressed(s, Key::Char('Q')).request == RequestView::Finish(ResultView::Quit),
        pressed(s, Key::Char('r')).request is Rescan,
        pressed(s, Key::Char('R')).request is Rescan,
        s.features.rescue_shell ==> pressed(s, Key::Char('s')).request == RequestView::Finish(
            ResultView::Shell,
        ),
        !s.features.rescue_shell ==> pressed(s, Key::Char('s')).request is Wait,
        !s.features.full_fs_view ==> pressed(s, Key::Char('f')).request is Wait,
        s.features.full_fs_view ==> (source_at(s.view.rows, s.view.cursor) matches Some(i) ==> (
        match s.sources[i].mount_point {
            Some(mp) => pressed(s, Key::Char('f')).request == RequestView::List(mp),
            None => pressed(s, Key::Char('f')).request is Wait,
        })),
        pressed(s, Key::Escape).request is Wait,
        pressed(s, Key::Up).request is Wait,
        pressed(s, Key::Down).request is Wait,
        pressed(s, Key::Left).request is Wait,
        pressed(s, Key::Right).request is Wait,
{
}

/// In the file browser, Enter asks for the path of the item under the cursor: to list a
/// directory, to read a leaf, or to boot a file. Escape lists the directory above, or
/// leaves the browser at its root.
pub proof fn browser_follows_the_cursor(s: SessionState)
    requires
        s.is_sound(),
        s.side is Some,
        s.side->0 is FileBrowser,
        s.side->0->FileBrowser_menu.items.len() == s.side->0->FileBrowser_dir_entries.len(),
        s.side->0->FileBrowser_dir_entries.len() > 0,
    ensures
        ({
            let dir = s.side->0->FileBrowser_current_dir;
            let at = s.side->0->FileBrowser_dir_entries[s.side->0->FileBrowser_menu.cursor];
            let r = pressed(s, Key::Enter).request;
            let back = pressed(s, Key::Escape);
            &&& at.is_dir && at.is_leaf ==> r == RequestView::ReadLeaf(at.path)
            &&& at.is_dir && !at.is_leaf ==> r == RequestView::List(at.path)
            &&& !at.is_dir && at.is_bootable ==> r == RequestView::Finish(
                ResultView::BootFile { path: at.path },
            )
            &&& !at.is_dir && !at.is_bootable ==> r is Wait
            &&& same_path(dir, s.side->0->FileBrowser_root) ==> back.request is Wait
                && back.state.side is None
            &&& !same_path(dir, s.side->0->FileBrowser_root) ==> (match parent_of(dir) {
                Some(parent) => back.request == RequestView::List(parent),
                None => back.request is Wait,
            })
        }),
{
}

/// Among the entries of a leaf, Enter boots the one under the cursor, from that leaf and
/// the source of the browser.
pub proof fn entries_of_a_leaf_can_be_booted(s: SessionState)
    requires
        s.is_sound(),
        s.side is Some,
        s.side->0 is Entries,
        s.side->0->Entries_menu.items.len() == s.side->0->Entries_entries.len(),
        s.side->0->Entries_entries.len() > 0,
    ensures
        pressed(s, Key::Enter).request == RequestView::Finish(
            ResultView::Boot {
                leaf_path: s.side->0->Entries_leaf_path,
                entry: s.side->0->Entries_entries[s.side->0->Entries_menu.cursor],
                source_idx: s.side->0->Entries_source_idx,
            },
        ),
{
}

/// Opening a leaf from the browser shows all the entries that its file lists, and
/// belongs to the same source; a file that cannot be read or parsed changes nothing.
pub proof fn opened_leaf_shows_its_entries(
    s: SessionState,
    path: Seq<u8>,
    json: Result<String, IoFailure>,
)
    requires
        s.side is Some,
        s.side->0 is FileBrowser,
    ensures
        ({
            let after = after_leaf(s, path, json);
            &&& json is Err ==> after == s
            &&& json matches Ok(text) ==> (match entries_of(text@) {
                Err(_) => after == s,
                Ok(entries) => {
                    &&& after.side matches Some(SideView::Entries { .. })
                    &&& after.side->0->Entries_entries == entries
                    &&& after.side->0->Entries_leaf_path == path
                    &&& after.side->0->Entries_source_idx == s.side->0->FileBrowser_source_idx
                    &&& after.side->0->Entries_menu == entry_menu(entries, s.default, path)
                },
            })
            &&& after.sources == s.sources
            &&& after.view == s.view
        }),
{
}

/// Listing a directory from the tree view opens the browser there, for the source of the
/// row under the cursor; listing one from the browser goes there and keeps the root.
pub proof fn listed_directory_is_shown(
    s: SessionState,
    dir: Seq<u8>,
    listing: Result<Vec<ListedFile>, IoFailure>,
    entries: Seq<DirEntryView>,
    i: int,
)
    requires
        dir_entries_of(dir, listing) == Ok::<
            Seq<DirEntryView>,
            ErrorView,
        >(entries),
        source_at(s.view.rows, s.view.cursor) == Some(i),
    ensures
        ({
            let after = after_listing(s, dir, listing);
            &&& s.side is None ==> (after.side matches Some(SideView::FileBrowser { .. })
                && after.side->0->FileBrowser_root == dir && after.side->0->FileBrowser_source_idx
                == i)
            &&& s.side matches Some(SideView::FileBrowser { .. }) ==> (
            after.side matches Some(SideView::FileBrowser { .. })
                && after.side->0->FileBrowser_root == s.side->0->FileBrowser_root
                && after.side->0->FileBrowser_source_idx == s.side->0->FileBrowser_source_idx)
            &&& s.side is None || s.side->0 is FileBrowser
                ==> after.side->0->FileBrowser_current_dir == dir
                && after.side->0->FileBrowser_dir_entries == entries
                && after.side->0->FileBrowser_menu == file_menu(entries)
        }),
{
}

/// Looking for the sources again replaces all of them, with their trees; the view is built
/// anew, and starts on the newest entry of all.
pub proof fn rescan_replaces_the_sources(
    s: SessionState,
    sources: Seq<SourceView>,
    trees: Seq<Seq<TreeNodeView>>,
    labels: Seq<Seq<char>>,
)
    ensures
        ({
            let after = after_rescan(s, sources, trees, labels);
            &&& after.sources == sources
            &&& after.trees == trees
            &&& after.labels == labels
            &&& after.view == built(sources, trees, default_selection(trees, None))
            &&& after.side == s.side
            &&& after.features == s.features
            &&& after.default == s.default
        }),
{
}

/// Only what a build offers can be chosen: without a rescue shell no key leads to it, and
/// without the view of filesystems no file is booted and nothing is listed from the tree.
pub proof fn builds_bound_the_choices(s: SessionState, key: Key)
    requires
        s.is_sound(),
    ensures
        pressed(s, key).request == RequestView::Finish(ResultView::Shell)
            ==> s.features.rescue_shell && (key == Key::Char('s') || key == Key::Char('S')),
        pressed(s, key).request matches RequestView::Finish(ResultView::BootFile { .. })
            ==> s.features.full_fs_view && key == Key::Enter,
        pressed(s, key).request matches RequestView::List(_) ==> s.features.full_fs_view,
        pressed(s, key).request == RequestView::Finish(ResultView::Quit) ==> key == Key::Char('q')
            || key == Key::Char('Q'),
        pressed(s, key).state.features == s.features,
        pressed(s, key).state.sources == s.sources,
        pressed(s, key).state.trees == s.trees,
        pressed(s, key).state.default == s.default,
{
}

/// The terminal is set back exactly when the menu is left: the cursor is shown again and
/// the screen is cleared. Leaving the prompt hides the cursor that the prompt had shown.
pub proof fn terminal_is_set_back(s: SessionState, key: Key)
    requires
        s.is_sound(),
    ensures
        pressed(s, key).request is Finish ==> pressed(s, key).output == "\x1b[?25h"@
            + "\x1b[2J\x1b[H"@,
        !(pressed(s, key).request is Finish) && !(s.side matches Some(SideView::Passphrase { .. })
            && key == Key::Escape) ==> pressed(s, key).output.len() == 0,
        s.side matches Some(SideView::Passphrase { .. }) && key == Key::Escape ==> pressed(
            s,
            key,
        ).output == "\x1b[?25l"@,
{
}

/// What is on the screen is what the session is at: the tree view, the prompt, the files
/// of the directory, or the entries of the leaf, with the source that they belong to.
pub proof fn screen_shows_the_session(s: SessionState, i: int)
    ensures
        s.side is None ==> screen_of(s) == tree_view_screen(s.view),
        s.side matches Some(SideView::Passphrase { source_label, input, error, .. })
            ==> screen_of(s) == passphrase_screen(source_label, input, error),
        s.side matches Some(SideView::FileBrowser { source_label, menu, .. }) ==> (0 <= i
            < menu.items.len() ==> stands_in(menu.items[i].label, screen_of(s)) && stands_in(
            source_label,
            screen_of(s),
        )),
        s.side matches Some(SideView::Entries { source_label, leaf_label, menu, .. }) ==> (0 <= i
            < menu.items.len() ==> stands_in(menu.items[i].label, screen_of(s)) && stands_in(
            source_label,
            screen_of(s),
        ) && stands_in(leaf_label, screen_of(s))),
{
    match s.side {
        Some(SideView::FileBrowser { source_label, current_dir, root, menu, .. }) => {
            if 0 <= i < menu.items.len() {
                let crumb = source_label + " [fs]"@;
                let title = browsed_path(current_dir, root);
                let hint = "↑↓ navigate  Enter open  Esc back  b boot tree"@;
                every_item_is_on_the_screen(title, crumb, menu, hint, i);
                item_name_is_on_the_screen(title, crumb, menu, hint, i);
                stands_in_front(source_label, " [fs]"@);
                standing_in_is_transitive(source_label, crumb, screen_of(s));
            }
        },
        Some(SideView::Entries { source_label, leaf_label, menu, .. }) => {
            if 0 <= i < menu.items.len() {
                let crumb = source_label + " > "@ + leaf_label;
                let title = "Boot Entries"@;
                let hint = "↑↓ navigate  Enter boot  Esc back"@;
                every_item_is_on_the_screen(title, crumb, menu, hint, i);
                item_name_is_on_the_screen(title, crumb, menu, hint, i);
                stands_in_front(source_label, " > "@ + leaf_label);
                assert(source_label + (" > "@ + leaf_label) =~= crumb);
                stands_at_end(source_label + " > "@, leaf_label);
                standing_in_is_transitive(source_label, crumb, screen_of(s));
                standing_in_is_transitive(leaf_label, crumb, screen_of(s));
            }
        },
        _ => {},
    }
}

proof fn item_name_is_on_the_screen(
    title: Seq<char>,
    crumb: Seq<char>,
    menu: MenuView,
    hint: Seq<char>,
    i: int,
)
    requires
        0 <= i < menu.items.len(),
    ensures
        stands_in(menu.items[i].label, menu_screen(title, crumb, menu, hint)),
{
    every_item_is_on_the_screen(title, crumb, menu, hint, i);
    let label = menu.items[i].label;
    let sign = match menu.items[i].state {
        Mark::Default => '*',
        Mark::Locked => 'L',
        Mark::Error(_) => '!',
        Mark::Normal => ' ',
    };
    stands_at_end(seq![sign, ' '], label);
    standing_in_is_transitive(
        label,
        seq![sign, ' '] + label,
        menu_screen(title, crumb, menu, hint),
    );
}

} // verus!
