//! The menu as a state machine: what a key leads to, and what is done with what
//! the outside world answers.

use vstd::prelude::*;

use crate::boot::{
    build_source_tree, find_entry_leaf_path, is_offered, key_data, leaf_at, source_tree, ResultView,
    TuiResult,
};
use crate::devices::DiskLink;
use crate::discover::outcome_view;
use crate::keys::Key;
use crate::menu::{
    build_entry_menu, build_file_menu, dir_entries_of, dir_entry, entry_menu, file_menu, file_order,
    DirEntry, DirEntryView, ListedFile, ListedView, Menu, MenuView,
};
use crate::path::{
    below, is_plain_name, joined, joined_name_is_child, parent_drops_last_part, parent_of, parts,
    same_path, short_name, spans, BootPath,
};
use crate::render::{
    browsed_path, cleanup, hide_cursor, menu_screen, passphrase_screen, render_entries,
    render_file_browser, render_passphrase, render_tree_view, tree_view_screen,
};
use crate::screen::{
    entry_action, file_browser_action, handle_entry_key, handle_file_browser_key,
    handle_passphrase_key, handle_tree_view_key, menu_after, passphrase_action, tree_view_action,
    typed, view_after, Action, ActionView,
};
use crate::select::{default_selection, resolve_default};
use crate::sort::{sorted, sorted_keeps_property, views};
use crate::text::opt_text;
use crate::tree::{entries_of, parse_entries, DirItem};
use crate::treeview::{
    built, built_is_sound, built_names_sources, names_sources, operations_keep_kinds,
    operations_keep_soundness, source_at, source_at_is_named, TreeView, ViewState,
};
use crate::types::{
    opt_selection, source_views, tree_labels, tree_views, BootSelection, Entry, EntryView, Error,
    ErrorView, Features, IoFailure, SelectionView, Source, SourceState, SourceStateView, SourceView,
    TreeNode, TreeNodeView,
};

verus! {

/// A screen that covers the tree view.
#[derive(Debug)]
pub enum SideScreen {
    Passphrase {
        source_idx: usize,
        source_label: String,
        input: String,
        error: Option<String>,
    },
    FileBrowser {
        source_idx: usize,
        source_label: String,
        current_dir: BootPath,
        root: BootPath,
        menu: Menu,
        dir_entries: Vec<DirEntry>,
    },
    /// The entries of a leaf that was opened in the file browser, with what the
    /// browser showed.
    Entries {
        source_idx: usize,
        source_label: String,
        leaf_label: String,
        leaf_path: BootPath,
        menu: Menu,
        entries: Vec<Entry>,
        current_dir: BootPath,
        root: BootPath,
        files: Menu,
        dir_entries: Vec<DirEntry>,
    },
}

/// The model of a screen that covers the tree view.
pub enum SideView {
    Passphrase {
        source_idx: int,
        source_label: Seq<char>,
        input: Seq<char>,
        error: Option<Seq<char>>,
    },
    FileBrowser {
        source_idx: int,
        source_label: Seq<char>,
        current_dir: Seq<u8>,
        root: Seq<u8>,
        menu: MenuView,
        dir_entries: Seq<DirEntryView>,
    },
    Entries {
        source_idx: int,
        source_label: Seq<char>,
        leaf_label: Seq<char>,
        leaf_path: Seq<u8>,
        menu: MenuView,
        entries: Seq<EntryView>,
        current_dir: Seq<u8>,
        root: Seq<u8>,
        files: MenuView,
        dir_entries: Seq<DirEntryView>,
    },
}

impl View for SideScreen {
    type V = SideView;

    open spec fn view(&self) -> SideView {
        match self {
            SideScreen::Passphrase { source_idx, source_label, input, error } =>
                SideView::Passphrase {
                source_idx: *source_idx as int,
                source_label: source_label@,
                input: input@,
                error: opt_text(*error),
            },
            SideScreen::FileBrowser {
                source_idx,
                source_label,
                current_dir,
                root,
                menu,
                dir_entries,
            } => SideView::FileBrowser {
                source_idx: *source_idx as int,
                source_label: source_label@,
                current_dir: current_dir@,
                root: root@,
                menu: menu@,
                dir_entries: views(dir_entries@),
            },
            SideScreen::Entries {
                source_idx,
                source_label,
                leaf_label,
                leaf_path,
                menu,
                entries,
                current_dir,
                root,
                files,
                dir_entries,
            } => SideView::Entries {
                source_idx: *source_idx as int,
                source_label: source_label@,
                leaf_label: leaf_label@,
                leaf_path: leaf_path@,
                menu: menu@,
                entries: views(entries@),
                current_dir: current_dir@,
                root: root@,
                files: files@,
                dir_entries: views(dir_entries@),
            },
        }
    }
}

/// The view of an optional screen.
pub open spec fn opt_side(s: Option<SideScreen>) -> Option<SideView> {
    match s {
        Some(x) => Some(x@),
        None => None,
    }
}

/// The menu while it is shown.
#[derive(Debug)]
pub struct Session {
    pub features: Features,
    pub sources: Vec<Source>,
    pub trees: Vec<(String, Vec<TreeNode>)>,
    pub default: Option<BootSelection>,
    pub view: TreeView,
    pub side: Option<SideScreen>,
}

/// The model of the menu while it is shown.
pub struct SessionState {
    pub features: Features,
    pub sources: Seq<SourceView>,
    pub trees: Seq<Seq<TreeNodeView>>,
    pub labels: Seq<Seq<char>>,
    pub default: Option<SelectionView>,
    pub view: ViewState,
    pub side: Option<SideView>,
}

impl View for Session {
    type V = SessionState;

    open spec fn view(&self) -> SessionState {
        SessionState {
            features: self.features,
            sources: source_views(self.sources@),
            trees: tree_views(self.trees@),
            labels: tree_labels(self.trees@),
            default: opt_selection(self.default),
            view: self.view.state(),
            side: opt_side(self.side),
        }
    }
}

impl SessionState {
    /// Whether the menu is as it should be: there is a tree for each source, the
    /// view is sound and shows these sources, and so does the screen that covers
    /// it, which is not one of browsing files unless that is a feature.
    pub open spec fn is_sound(self) -> bool {
        &&& self.trees.len() == self.sources.len()
        &&& self.labels.len() == self.sources.len()
        &&& self.view.is_sound()
        &&& names_sources(self.view.rows, self.sources.len() as int)
        &&& match self.side {
            Some(SideView::Passphrase { source_idx, .. }) => 0 <= source_idx
                < self.sources.len(),
            Some(SideView::FileBrowser { source_idx, menu, .. }) => menu.is_sound() && 0
                <= source_idx < self.sources.len() && self.features.full_fs_view,
            Some(SideView::Entries { source_idx, menu, files, .. }) => menu.is_sound()
                && files.is_sound() && 0 <= source_idx < self.sources.len()
                && self.features.full_fs_view,
            None => true,
        }
    }
}

/// What is to be done next outside.
#[derive(Debug)]
pub enum Request {
    /// Show the screen and wait for a key.
    Wait,
    /// Leave the menu.
    Finish(TuiResult),
    /// List a directory, and hand the listing to `listed`.
    List(BootPath),
    /// Unlock and mount a device, and hand the outcome to `unlocked`.
    Unlock { device: BootPath, passphrase: String },
    /// Try to mount the device of a source, and hand the outcome to `opened`.
    Open { source_idx: usize, device: BootPath },
    /// Read the entries.json of a directory, and hand it to `leaf_read`.
    ReadLeaf(BootPath),
    /// Look for sources again, and hand them to `rescanned` if that succeeds.
    Rescan,
}

/// The model of a request.
pub enum RequestView {
    Wait,
    Finish(ResultView),
    List(Seq<u8>),
    Unlock { device: Seq<u8>, passphrase: Seq<char> },
    Open { source_idx: int, device: Seq<u8> },
    ReadLeaf(Seq<u8>),
    Rescan,
}

impl View for Request {
    type V = RequestView;

    open spec fn view(&self) -> RequestView {
        match self {
            Request::Wait => RequestView::Wait,
            Request::Finish(r) => RequestView::Finish(r@),
            Request::List(p) => RequestView::List(p@),
            Request::Unlock { device, passphrase } => RequestView::Unlock {
                device: device@,
                passphrase: passphrase@,
            },
            Request::Open { source_idx, device } => RequestView::Open {
                source_idx: *source_idx as int,
                device: device@,
            },
            Request::ReadLeaf(p) => RequestView::ReadLeaf(p@),
            Request::Rescan => RequestView::Rescan,
        }
    }
}

/// What a key leads to: the menu after it, what is to be done, and what is
/// written to the terminal at once.
pub struct Reaction {
    pub state: SessionState,
    pub request: RequestView,
    pub output: Seq<char>,
}

/// Leaving the menu: the terminal is set back.
pub open spec fn leave(state: SessionState, r: ResultView) -> Reaction {
    Reaction {
        state,
        request: RequestView::Finish(r),
        output: "\x1b[?25h"@ + "\x1b[2J\x1b[H"@,
    }
}

/// Asking for something, with nothing written.
pub open spec fn ask(state: SessionState, request: RequestView) -> Reaction {
    Reaction { state, request, output: Seq::empty() }
}

/// What a key leads to on the tree view.
pub open spec fn on_tree(s: SessionState, key: Key) -> Reaction {
    let v = view_after(s.view, key);
    let next = SessionState { view: v, ..s };
    match tree_view_action(s.view, key) {
        ActionView::Quit => leave(next, ResultView::Quit),
        ActionView::DropToShell => if s.features.rescue_shell {
            leave(next, ResultView::Shell)
        } else {
            ask(next, RequestView::Wait)
        },
        ActionView::Boot { source_idx, entry } => match leaf_at(v.rows, v.cursor) {
            Some(leaf_path) => leave(next, ResultView::Boot { leaf_path, entry, source_idx }),
            None => ask(next, RequestView::Wait),
        },
        ActionView::UnlockSource(i) => ask(
            SessionState {
                side: Some(
                    SideView::Passphrase {
                        source_idx: i,
                        source_label: s.sources[i].label,
                        input: Seq::empty(),
                        error: None,
                    },
                ),
                ..next
            },
            RequestView::Wait,
        ),
        ActionView::OpenSource(i) => ask(
            next,
            RequestView::Open { source_idx: i, device: s.sources[i].device },
        ),
        ActionView::OpenFileBrowser => if !s.features.full_fs_view {
            ask(next, RequestView::Wait)
        } else {
            match source_at(v.rows, v.cursor) {
                Some(i) => match s.sources[i].mount_point {
                    Some(mp) => ask(next, RequestView::List(mp)),
                    None => ask(next, RequestView::Wait),
                },
                None => ask(next, RequestView::Wait),
            }
        },
        ActionView::RefreshSources => ask(next, RequestView::Rescan),
        _ => ask(next, RequestView::Wait),
    }
}

/// What a key leads to on the passphrase prompt.
pub open spec fn on_passphrase(
    s: SessionState,
    source_idx: int,
    source_label: Seq<char>,
    input: Seq<char>,
    error: Option<Seq<char>>,
    key: Key,
) -> Reaction {
    let now = typed(input, key);
    let next = SessionState {
        side: Some(SideView::Passphrase { source_idx, source_label, input: now, error }),
        ..s
    };
    match passphrase_action(key) {
        ActionView::SubmitPassphrase => ask(
            next,
            RequestView::Unlock { device: s.sources[source_idx].device, passphrase: now },
        ),
        ActionView::Back => Reaction {
            state: SessionState { side: None, ..s },
            request: RequestView::Wait,
            output: "\x1b[?25l"@,
        },
        _ => ask(next, RequestView::Wait),
    }
}

/// What a key leads to in the file browser.
pub open spec fn on_files(
    s: SessionState,
    source_idx: int,
    source_label: Seq<char>,
    current_dir: Seq<u8>,
    root: Seq<u8>,
    menu: MenuView,
    dir_entries: Seq<DirEntryView>,
    key: Key,
) -> Reaction {
    let next = SessionState {
        side: Some(
            SideView::FileBrowser {
                source_idx,
                source_label,
                current_dir,
                root,
                menu: menu_after(menu, key),
                dir_entries,
            },
        ),
        ..s
    };
    match file_browser_action(menu, dir_entries, current_dir, root, key) {
        ActionView::BootFile { path } => leave(next, ResultView::BootFile { path }),
        ActionView::OpenDir(i) => ask(next, RequestView::List(dir_entries[i].path)),
        ActionView::OpenLeaf(i) => ask(next, RequestView::ReadLeaf(dir_entries[i].path)),
        ActionView::DirUp => match parent_of(current_dir) {
            Some(parent) => ask(next, RequestView::List(parent)),
            None => ask(next, RequestView::Wait),
        },
        ActionView::Back => ask(SessionState { side: None, ..s }, RequestView::Wait),
        _ => ask(next, RequestView::Wait),
    }
}

/// What a key leads to on the entries of a leaf.
pub open spec fn on_entries(s: SessionState, shown: SideView, key: Key) -> Reaction {
    match shown {
        SideView::Entries {
            source_idx,
            source_label,
            leaf_label,
            leaf_path,
            menu,
            entries,
            current_dir,
            root,
            files,
            dir_entries,
        } => {
            let next = SessionState {
                side: Some(
                    SideView::Entries {
                        source_idx,
                        source_label,
                        leaf_label,
                        leaf_path,
                        menu: menu_after(menu, key),
                        entries,
                        current_dir,
                        root,
                        files,
                        dir_entries,
                    },
                ),
                ..s
            };
            match entry_action(menu, entries, source_idx, key) {
                ActionView::Boot { source_idx, entry } => leave(
                    next,
                    ResultView::Boot { leaf_path, entry, source_idx },
                ),
                ActionView::Back => ask(
                    SessionState {
                        side: Some(
                            SideView::FileBrowser {
                                source_idx,
                                source_label,
                                current_dir,
                                root,
                                menu: files,
                                dir_entries,
                            },
                        ),
                        ..s
                    },
                    RequestView::Wait,
                ),
                _ => ask(next, RequestView::Wait),
            }
        },
        _ => ask(s, RequestView::Wait),
    }
}

/// What a key leads to.
pub open spec fn pressed(s: SessionState, key: Key) -> Reaction {
    match s.side {
        None => on_tree(s, key),
        Some(SideView::Passphrase { source_idx, source_label, input, error }) => on_passphrase(
            s,
            source_idx,
            source_label,
            input,
            error,
            key,
        ),
        Some(
            SideView::FileBrowser {
                source_idx,
                source_label,
                current_dir,
                root,
                menu,
                dir_entries,
            },
        ) => on_files(s, source_idx, source_label, current_dir, root, menu, dir_entries, key),
        Some(shown) => on_entries(s, shown, key),
    }
}

/// The menu after a directory has been listed. What cannot be listed is not
/// opened.
pub open spec fn after_listing(
    s: SessionState,
    dir: Seq<u8>,
    listing: Result<Vec<ListedFile>, IoFailure>,
) -> SessionState {
    match dir_entries_of(dir, listing) {
        Err(_) => s,
        Ok(dir_entries) => match s.side {
            None => match source_at(s.view.rows, s.view.cursor) {
                Some(i) => SessionState {
                    side: Some(
                        SideView::FileBrowser {
                            source_idx: i,
                            source_label: s.sources[i].label,
                            current_dir: dir,
                            root: dir,
                            menu: file_menu(dir_entries),
                            dir_entries,
                        },
                    ),
                    ..s
                },
                None => s,
            },
            Some(SideView::FileBrowser { source_idx, source_label, root, .. }) => SessionState {
                side: Some(
                    SideView::FileBrowser {
                        source_idx,
                        source_label,
                        current_dir: dir,
                        root,
                        menu: file_menu(dir_entries),
                        dir_entries,
                    },
                ),
                ..s
            },
            Some(_) => s,
        },
    }
}

/// The menu after the entries.json of a leaf in the file browser has been read. A
/// leaf whose entries cannot be read is not opened.
pub open spec fn after_leaf(
    s: SessionState,
    path: Seq<u8>,
    json: Result<String, IoFailure>,
) -> SessionState {
    match s.side {
        Some(
            SideView::FileBrowser {
                source_idx,
                source_label,
                current_dir,
                root,
                menu,
                dir_entries,
            },
        ) => match json {
            Ok(text) => match entries_of(text@) {
                Ok(entries) => SessionState {
                    side: Some(
                        SideView::Entries {
                            source_idx,
                            source_label,
                            leaf_label: short_name(path),
                            leaf_path: path,
                            menu: entry_menu(entries, s.default, path),
                            entries,
                            current_dir,
                            root,
                            files: menu,
                            dir_entries,
                        },
                    ),
                    ..s
                },
                Err(_) => s,
            },
            Err(_) => s,
        },
        _ => s,
    }
}

/// A source that could be mounted.
pub open spec fn opened_source(src: SourceView, mount_point: Seq<u8>) -> SourceView {
    SourceView { state: SourceStateView::Mounted, mount_point: Some(mount_point), ..src }
}

/// The menu after an attempt to open a source. If it succeeded, the source has its
/// boot tree and the view is built anew; if not, nothing changes.
pub open spec fn after_open(
    s: SessionState,
    source_idx: int,
    outcome: Result<Seq<u8>, ErrorView>,
    boot: Option<Result<Vec<DirItem>, IoFailure>>,
) -> SessionState {
    match outcome {
        Ok(mp) => {
            let src = opened_source(s.sources[source_idx], mp);
            let sources = s.sources.update(source_idx, src);
            let trees = s.trees.update(source_idx, source_tree(src, boot));
            SessionState {
                sources,
                trees,
                labels: s.labels.update(source_idx, src.label),
                view: built(sources, trees, s.default),
                ..s
            }
        },
        Err(_) => s,
    }
}

/// A source that was unlocked and mounted.
pub open spec fn unlocked_source(
    src: SourceView,
    mount_point: Seq<u8>,
    passphrase: Seq<char>,
) -> SourceView {
    SourceView {
        state: SourceStateView::Mounted,
        mount_point: Some(mount_point),
        passphrase: Some(passphrase),
        ..src
    }
}

/// The menu after an attempt to unlock a source. If it succeeded, the source has
/// its boot tree and the view is built anew; if not, the prompt says why and
/// starts over.
pub open spec fn after_unlock(
    s: SessionState,
    outcome: Result<Seq<u8>, ErrorView>,
    boot: Option<Result<Vec<DirItem>, IoFailure>>,
) -> SessionState {
    match s.side {
        Some(SideView::Passphrase { source_idx, source_label, input, error }) => match outcome {
            Ok(mp) => {
                let src = unlocked_source(s.sources[source_idx], mp, input);
                let sources = s.sources.update(source_idx, src);
                let trees = s.trees.update(source_idx, source_tree(src, boot));
                SessionState {
                    sources,
                    trees,
                    labels: s.labels.update(source_idx, src.label),
                    view: built(sources, trees, s.default),
                    side: None,
                    ..s
                }
            },
            Err(e) => SessionState {
                side: Some(
                    SideView::Passphrase {
                        source_idx,
                        source_label,
                        input: Seq::empty(),
                        error: Some(e.text()),
                    },
                ),
                ..s
            },
        },
        _ => s,
    }
}

/// The menu after the sources have been looked for again. The default is chosen
/// anew, without what was remembered.
pub open spec fn after_rescan(
    s: SessionState,
    sources: Seq<SourceView>,
    trees: Seq<Seq<TreeNodeView>>,
    labels: Seq<Seq<char>>,
) -> SessionState {
    SessionState {
        sources,
        trees,
        labels,
        view: built(sources, trees, default_selection(trees, None)),
        ..s
    }
}

/// What is shown.
pub open spec fn screen_of(s: SessionState) -> Seq<char> {
    match s.side {
        None => tree_view_screen(s.view),
        Some(SideView::Passphrase { source_label, input, error, .. }) => passphrase_screen(
            source_label,
            input,
            error,
        ),
        Some(SideView::FileBrowser { source_label, current_dir, root, menu, .. }) => menu_screen(
            browsed_path(current_dir, root),
            source_label + " [fs]"@,
            menu,
            "↑↓ navigate  Enter open  Esc back  b boot tree"@,
        ),
        Some(SideView::Entries { source_label, leaf_label, menu, .. }) => menu_screen(
            "Boot Entries"@,
            source_label + " > "@ + leaf_label,
            menu,
            "↑↓ navigate  Enter boot  Esc back"@,
        ),
    }
}

/// Whether a key opens the file browser.
pub open spec fn opens_files(key: Key) -> bool {
    key == Key::Char('f') || key == Key::Char('F')
}

/// Every key keeps the menu as it should be.
pub proof fn keys_keep_soundness(s: SessionState, key: Key)
    requires
        s.is_sound(),
    ensures
        pressed(s, key).state.is_sound(),
{
    operations_keep_soundness(s.view);
    operations_keep_kinds(s.view, s.sources.len() as int);
}

impl Session {
    /// Shows the given sources, with the default selection.
    pub fn new(
        features: Features,
        sources: Vec<Source>,
        trees: Vec<(String, Vec<TreeNode>)>,
        default: Option<BootSelection>,
    ) -> (r: Session)
        requires
            sources@.len() == trees@.len(),
        ensures
            r@ == (SessionState {
                features,
                sources: source_views(sources@),
                trees: tree_views(trees@),
                labels: tree_labels(trees@),
                default: opt_selection(default),
                view: built(
                    source_views(sources@),
                    tree_views(trees@),
                    opt_selection(default),
                ),
                side: None,
            }),
            r@.is_sound(),
    {
        let view = TreeView::build(sources.as_slice(), trees.as_slice(), default.as_ref());
        proof {
            built_is_sound(
                source_views(sources@),
                tree_views(trees@),
                opt_selection(default),
            );
            built_names_sources(
                source_views(sources@),
                tree_views(trees@),
                opt_selection(default),
            );
        }
        Session { features, sources, trees, default, view, side: None }
    }

    /// Shows the current screen.
    pub fn render(&self, w: &mut String)
        ensures
            final(w)@ == old(w)@ + screen_of(self@),
    {
        match &self.side {
            None => {
                render_tree_view(w, &self.view);
            },
            Some(SideScreen::Passphrase { source_idx: _, source_label, input, error }) => {
                let error = match error {
                    Some(e) => Some(e.as_str()),
                    None => None,
                };
                render_passphrase(w, source_label.as_str(), input.as_str(), error);
            },
            Some(SideScreen::FileBrowser { source_label, current_dir, root, menu, .. }) => {
                render_file_browser(w, source_label.as_str(), current_dir, root, menu);
            },
            Some(SideScreen::Entries { source_label, leaf_label, menu, .. }) => {
                render_entries(w, source_label.as_str(), leaf_label.as_str(), menu);
            },
        }
    }

    /// Asks for the passphrase of a source.
    fn prompt(&mut self, idx: usize)
        requires
            idx < old(self).sources@.len(),
        ensures
            final(self)@ == (SessionState {
                side: Some(
                    SideView::Passphrase {
                        source_idx: idx as int,
                        source_label: old(self)@.sources[idx as int].label,
                        input: Seq::empty(),
                        error: None,
                    },
                ),
                ..old(self)@
            }),
    {
        assert(source_views(self.sources@)[idx as int] == self.sources@[idx as int]@);
        let side = SideScreen::Passphrase {
            source_idx: idx,
            source_label: self.sources[idx].label.clone(),
            input: String::new(),
            error: None,
        };
        assert(side@->input =~= Seq::<char>::empty());
        self.side = Some(side);
    }

    /// Asks for the root directory of the source at the cursor.
    fn ask_for_root(&self) -> (r: Request)
        requires
            self.view.cursor < self.view.nodes@.len(),
            names_sources(self.view.rows(), self.sources@.len() as int),
        ensures
            r@ == (match source_at(self.view.rows(), self.view.cursor as int) {
                Some(i) => match self@.sources[i].mount_point {
                    Some(mp) => RequestView::List(mp),
                    None => RequestView::Wait,
                },
                None => RequestView::Wait,
            }),
    {
        proof {
            source_at_is_named(
                self.view.rows(),
                self.view.cursor as int,
                self.sources@.len() as int,
            );
        }
        match self.view.cursor_source_idx() {
            Some(i) => {
                assert(source_views(self.sources@)[i as int] == self.sources@[i as int]@);
                match &self.sources[i].mount_point {
                    Some(mp) => Request::List(mp.clone()),
                    None => Request::Wait,
                }
            },
            None => Request::Wait,
        }
    }

    #[verifier::rlimit(40)]
    fn press_on_tree(&mut self, key: &Key, w: &mut String) -> (r: Request)
        requires
            old(self)@.is_sound(),
            old(self).side is None,
            opens_files(*key) && old(self).features.full_fs_view ==> old(self).view.nodes@.len()
                > 0,
        ensures
            final(self)@ == on_tree(old(self)@, *key).state,
            r@ == on_tree(old(self)@, *key).request,
            final(w)@ == old(w)@ + on_tree(old(self)@, *key).output,
    {
        let ghost s = self@;
        let ghost rows = self.view.rows();
        assert(self.view.nodes.len() <= usize::MAX);
        assert(rows.len() == self.view.nodes@.len());
        proof {
            operations_keep_soundness(s.view);
            operations_keep_kinds(s.view, s.sources.len() as int);
        }
        let action = handle_tree_view_key(&mut self.view, key);
        assert(self@ == (SessionState { view: view_after(s.view, *key), ..s }));
        assert(self.view.rows().len() == self.view.nodes@.len());
        assert(source_views(self.sources@).len() == self.sources@.len());
        let request = match action {
            Action::Quit => Request::Finish(TuiResult::Quit),
            Action::DropToShell => if self.features.rescue_shell {
                Request::Finish(TuiResult::Shell)
            } else {
                Request::Wait
            },
            Action::Boot { source_idx, entry } => match find_entry_leaf_path(&self.view) {
                Some(leaf_path) => Request::Finish(
                    TuiResult::Boot { leaf_path, entry, source_idx },
                ),
                None => Request::Wait,
            },
            Action::UnlockSource(idx) => {
                assert(rows[s.view.cursor].kind is Source);
                self.prompt(idx);
                Request::Wait
            },
            Action::OpenSource(idx) => {
                assert(rows[s.view.cursor].kind is Source);
                assert(source_views(self.sources@)[idx as int] == self.sources@[idx as int]@);
                Request::Open { source_idx: idx, device: self.sources[idx].device.clone() }
            },
            Action::OpenFileBrowser => if self.features.full_fs_view {
                self.ask_for_root()
            } else {
                Request::Wait
            },
            Action::RefreshSources => Request::Rescan,
            _ => Request::Wait,
        };
        if let Request::Finish(_) = &request {
            cleanup(w);
        }
        assert(w@ =~= old(w)@ + on_tree(s, *key).output);
        request
    }

    /// Takes a key. Says what is to be done next, and writes what has to reach the
    /// terminal at once.
    pub fn press(&mut self, key: &Key, w: &mut String) -> (r: Request)
        requires
            old(self)@.is_sound(),
            old(self).side is None && opens_files(*key) && old(self).features.full_fs_view
                ==> old(self).view.nodes@.len() > 0,
        ensures
            final(self)@ == pressed(old(self)@, *key).state,
            r@ == pressed(old(self)@, *key).request,
            final(w)@ == old(w)@ + pressed(old(self)@, *key).output,
            final(self)@.is_sound(),
    {
        let ghost s = self@;
        proof {
            keys_keep_soundness(s, *key);
        }
        match self.side.take() {
            None => self.press_on_tree(key, w),
            Some(SideScreen::Passphrase { source_idx, source_label, input, error }) => {
                let mut input = input;
                let action = handle_passphrase_key(&mut input, key);
                match action {
                    Action::SubmitPassphrase => {
                        assert(source_views(self.sources@)[source_idx as int]
                            == self.sources@[source_idx as int]@);
                        let device = self.sources[source_idx].device.clone();
                        let passphrase = input.clone();
                        self.side = Some(
                            SideScreen::Passphrase { source_idx, source_label, input, error },
                        );
                        assert(w@ =~= old(w)@ + pressed(s, *key).output);
                        Request::Unlock { device, passphrase }
                    },
                    Action::Back => {
                        hide_cursor(w);
                        Request::Wait
                    },
                    _ => {
                        self.side = Some(
                            SideScreen::Passphrase { source_idx, source_label, input, error },
                        );
                        assert(w@ =~= old(w)@ + pressed(s, *key).output);
                        Request::Wait
                    },
                }
            },
            Some(
                SideScreen::FileBrowser {
                    source_idx,
                    source_label,
                    current_dir,
                    root,
                    menu,
                    dir_entries,
                },
            ) => {
                let mut menu = menu;
                assert(menu.items.len() <= usize::MAX);
                assert(menu@.items.len() == menu.items@.len());
                let action = handle_file_browser_key(
                    &mut menu,
                    dir_entries.as_slice(),
                    &current_dir,
                    &root,
                    key,
                );
                let request = match action {
                    Action::BootFile { path } => {
                        cleanup(w);
                        Request::Finish(TuiResult::BootFile { path })
                    },
                    Action::OpenDir(i) => {
                        assert(views(dir_entries@)[i as int] == dir_entries@[i as int]@);
                        Request::List(dir_entries[i].path.clone())
                    },
                    Action::OpenLeaf(i) => {
                        assert(views(dir_entries@)[i as int] == dir_entries@[i as int]@);
                        Request::ReadLeaf(dir_entries[i].path.clone())
                    },
                    Action::DirUp => match current_dir.parent() {
                        Some(parent) => Request::List(parent),
                        None => Request::Wait,
                    },
                    Action::Back => {
                        assert(w@ =~= old(w)@ + pressed(s, *key).output);
                        return Request::Wait;
                    },
                    _ => Request::Wait,
                };
                assert(w@ =~= old(w)@ + pressed(s, *key).output);
                self.side = Some(
                    SideScreen::FileBrowser {
                        source_idx,
                        source_label,
                        current_dir,
                        root,
                        menu,
                        dir_entries,
                    },
                );
                request
            },
            Some(
                SideScreen::Entries {
                    source_idx,
                    source_label,
                    leaf_label,
                    leaf_path,
                    menu,
                    entries,
                    current_dir,
                    root,
                    files,
                    dir_entries,
                },
            ) => {
                let mut menu = menu;
                assert(menu.items.len() <= usize::MAX);
                assert(menu@.items.len() == menu.items@.len());
                let action = handle_entry_key(&mut menu, entries.as_slice(), source_idx, key);
                let request = match action {
                    Action::Boot { source_idx, entry } => {
                        cleanup(w);
                        Request::Finish(
                            TuiResult::Boot { leaf_path: leaf_path.clone(), entry, source_idx },
                        )
                    },
                    Action::Back => {
                        self.side = Some(
                            SideScreen::FileBrowser {
                                source_idx,
                                source_label,
                                current_dir,
                                root,
                                menu: files,
                                dir_entries,
                            },
                        );
                        assert(w@ =~= old(w)@ + pressed(s, *key).output);
                        return Request::Wait;
                    },
                    _ => Request::Wait,
                };
                assert(w@ =~= old(w)@ + pressed(s, *key).output);
                self.side = Some(
                    SideScreen::Entries {
                        source_idx,
                        source_label,
                        leaf_label,
                        leaf_path,
                        menu,
                        entries,
                        current_dir,
                        root,
                        files,
                        dir_entries,
                    },
                );
                request
            },
        }
    }

    /// Takes the listing of a directory that was asked for.
    pub fn listed(&mut self, dir: BootPath, listing: Result<Vec<ListedFile>, IoFailure>)
        requires
            old(self)@.is_sound(),
            old(self).side is None ==> old(self).features.full_fs_view && old(
                self,
            ).view.nodes@.len() > 0,
        ensures
            final(self)@ == after_listing(old(self)@, dir@, listing),
            final(self)@.is_sound(),
    {
        let ghost s = self@;
        let (menu, dir_entries) = match build_file_menu(&dir, listing) {
            Ok(found) => found,
            Err(_) => {
                return;
            },
        };
        match self.side.take() {
            None => {
                assert(self.view.rows().len() == self.view.nodes@.len());
                proof {
                    source_at_is_named(
                        self.view.rows(),
                        self.view.cursor as int,
                        s.sources.len() as int,
                    );
                }
                if let Some(i) = self.view.cursor_source_idx() {
                    assert(source_views(self.sources@)[i as int] == self.sources@[i as int]@);
                    self.side = Some(
                        SideScreen::FileBrowser {
                            source_idx: i,
                            source_label: self.sources[i].label.clone(),
                            current_dir: dir.clone(),
                            root: dir,
                            menu,
                            dir_entries,
                        },
                    );
                }
            },
            Some(SideScreen::FileBrowser { source_idx, source_label, root, .. }) => {
                self.side = Some(
                    SideScreen::FileBrowser {
                        source_idx,
                        source_label,
                        current_dir: dir,
                        root,
                        menu,
                        dir_entries,
                    },
                );
            },
            other => {
                self.side = other;
            },
        }
    }

    /// Takes what reading the entries.json of a leaf in the file browser gave.
    pub fn leaf_read(&mut self, path: BootPath, json: Result<String, IoFailure>)
        requires
            old(self)@.is_sound(),
        ensures
            final(self)@ == after_leaf(old(self)@, path@, json),
            final(self)@.is_sound(),
    {
        let ghost s = self@;
        match self.side.take() {
            Some(
                SideScreen::FileBrowser {
                    source_idx,
                    source_label,
                    current_dir,
                    root,
                    menu,
                    dir_entries,
                },
            ) => {
                let parsed = match &json {
                    Ok(text) => match parse_entries(text.as_str()) {
                        Ok(entries) => Some(entries),
                        Err(_) => None,
                    },
                    Err(_) => None,
                };
                match parsed {
                    Some(entries) => {
                        let entry_list = build_entry_menu(
                            entries.as_slice(),
                            self.default.as_ref(),
                            &path,
                        );
                        self.side = Some(
                            SideScreen::Entries {
                                source_idx,
                                source_label,
                                leaf_label: path.listing_name(),
                                leaf_path: path,
                                menu: entry_list,
                                entries,
                                current_dir,
                                root,
                                files: menu,
                                dir_entries,
                            },
                        );
                    },
                    None => {
                        self.side = Some(
                            SideScreen::FileBrowser {
                                source_idx,
                                source_label,
                                current_dir,
                                root,
                                menu,
                                dir_entries,
                            },
                        );
                    },
                }
            },
            other => {
                self.side = other;
            },
        }
    }

    /// Takes the outcome of an attempt to open a source and, if it is mounted now,
    /// what is in its boot directory, if that is a directory.
    pub fn opened(
        &mut self,
        source_idx: usize,
        outcome: Result<BootPath, Error>,
        boot: &Option<Result<Vec<DirItem>, IoFailure>>,
    )
        requires
            old(self)@.is_sound(),
            old(self).side is None,
            source_idx < old(self).sources@.len(),
        ensures
            final(self)@ == after_open(
                old(self)@,
                source_idx as int,
                outcome_view(outcome),
                *boot,
            ),
            final(self)@.is_sound(),
    {
        let ghost s = self@;
        if let Ok(mp) = outcome {
            let ghost sources0 = self.sources@;
            let ghost i = source_idx as int;
            assert(source_views(sources0)[i] == sources0[i]@);
            self.sources[source_idx].state = SourceState::Mounted;
            self.sources[source_idx].mount_point = Some(mp);
            let ghost src = opened_source(s.sources[i], mp@);
            assert(self.sources@[i]@ == src);
            assert(source_views(self.sources@) =~= s.sources.update(i, src));
            let t = build_source_tree(&self.sources[source_idx], boot);
            self.trees[source_idx] = t;
            assert(tree_views(self.trees@) =~= s.trees.update(i, source_tree(src, *boot)));
            assert(tree_labels(self.trees@) =~= s.labels.update(i, src.label));
            let view = TreeView::build(
                self.sources.as_slice(),
                self.trees.as_slice(),
                self.default.as_ref(),
            );
            self.view = view;
            proof {
                let sv = source_views(self.sources@);
                let tv = tree_views(self.trees@);
                built_is_sound(sv, tv, s.default);
                built_names_sources(sv, tv, s.default);
            }
        }
    }

    /// Takes the outcome of unlocking a source and, if it is mounted now, what is
    /// in its boot directory, if that is a directory.
    pub fn unlocked(
        &mut self,
        outcome: Result<BootPath, Error>,
        boot: &Option<Result<Vec<DirItem>, IoFailure>>,
        w: &mut String,
    )
        requires
            old(self)@.is_sound(),
            old(self)@.side matches Some(SideView::Passphrase { .. }),
        ensures
            final(self)@ == after_unlock(
                old(self)@,
                outcome_view(outcome),
                *boot,
            ),
            final(self)@.is_sound(),
            final(w)@ == (if outcome is Ok {
                old(w)@ + "\x1b[?25l"@
            } else {
                old(w)@
            }),
    {
        let ghost s = self@;
        match self.side.take() {
            Some(SideScreen::Passphrase { source_idx, source_label, input, error: _ }) => {
                match outcome {
                    Ok(mp) => {
                        let ghost sources0 = self.sources@;
                        let ghost trees0 = self.trees@;
                        let ghost i = source_idx as int;
                        assert(source_views(sources0)[i] == sources0[i]@);
                        self.sources[source_idx].state = SourceState::Mounted;
                        self.sources[source_idx].mount_point = Some(mp);
                        self.sources[source_idx].passphrase = Some(input);
                        let ghost src = unlocked_source(s.sources[i], mp@, input@);
                        assert(self.sources@[i]@ == src);
                        assert(source_views(self.sources@) =~= s.sources.update(i, src));
                        let t = build_source_tree(&self.sources[source_idx], boot);
                        self.trees[source_idx] = t;
                        assert(tree_views(self.trees@) =~= s.trees.update(
                            i,
                            source_tree(src, *boot),
                        ));
                        assert(tree_labels(self.trees@) =~= s.labels.update(i, src.label));
                        hide_cursor(w);
                        let view = TreeView::build(
                            self.sources.as_slice(),
                            self.trees.as_slice(),
                            self.default.as_ref(),
                        );
                        self.view = view;
                        proof {
                            let sv = source_views(self.sources@);
                            let tv = tree_views(self.trees@);
                            built_is_sound(sv, tv, s.default);
                            built_names_sources(sv, tv, s.default);
                        }
                    },
                    Err(e) => {
                        let side = SideScreen::Passphrase {
                            source_idx,
                            source_label,
                            input: String::new(),
                            error: Some(e.to_text()),
                        };
                        assert(side@->input =~= Seq::<char>::empty());
                        self.side = Some(side);
                    },
                }
            },
            other => {
                self.side = other;
            },
        }
    }

    /// Takes the sources that were found when they were looked for again, with
    /// their trees.
    pub fn rescanned(&mut self, sources: Vec<Source>, trees: Vec<(String, Vec<TreeNode>)>)
        requires
            old(self)@.is_sound(),
            old(self).side is None,
            sources@.len() == trees@.len(),
        ensures
            final(self)@ == after_rescan(
                old(self)@,
                source_views(sources@),
                tree_views(trees@),
                tree_labels(trees@),
            ),
            final(self)@.is_sound(),
    {
        let fresh = resolve_default(trees.as_slice(), None);
        let view = TreeView::build(sources.as_slice(), trees.as_slice(), fresh.as_ref());
        proof {
            let sv = source_views(sources@);
            let tv = tree_views(trees@);
            built_is_sound(sv, tv, opt_selection(fresh));
            built_names_sources(sv, tv, opt_selection(fresh));
        }
        self.sources = sources;
        self.trees = trees;
        self.view = view;
    }
}

// --- Laws ---

/// Whether what was listed lies directly in a directory.
pub open spec fn lie_in(dir: Seq<u8>, entries: Seq<DirEntryView>) -> bool {
    forall|i: int|
        0 <= i < entries.len() ==> exists|name: Seq<u8>| #[trigger]
            is_plain_name(name) && (#[trigger] entries[i]).path == joined(dir, name)
}

/// What is found in a directory lies in it.
pub proof fn listing_lies_in(dir: Seq<u8>, files: Vec<ListedFile>)
    requires
        forall|i: int| 0 <= i < files@.len() ==> is_plain_name((#[trigger] files@[i]).name@),
    ensures
        dir_entries_of(dir, Ok(files)) matches Ok(entries) ==> lie_in(dir, entries),
{
    let raw = views(files@);
    let p = |f: ListedView| is_plain_name(f.name);
    assert forall|i: int| 0 <= i < raw.len() implies p(#[trigger] raw[i]) by {
        assert(is_plain_name(files@[i].name@));
    }
    sorted_keeps_property(raw, file_order(), p);
    let s = sorted(raw, file_order());
    if let Ok(entries) = dir_entries_of(dir, Ok(files)) {
        assert forall|i: int| 0 <= i < entries.len() implies exists|name: Seq<u8>| #[trigger]
            is_plain_name(name) && (#[trigger] entries[i]).path == joined(dir, name) by {
            assert(p(s[i]));
            assert(entries[i] == dir_entry(dir, s[i]));
            assert(is_plain_name(s[i].name));
        }
    }
}

proof fn lemma_child_below(dir: Seq<u8>, root: Seq<u8>, name: Seq<u8>)
    requires
        is_plain_name(name),
        below(dir, root) is Some,
    ensures
        below(joined(dir, name), root) is Some,
{
    joined_name_is_child(dir, name);
    let n = parts(root).len() as int;
    let j = joined(dir, name);
    assert(parts(dir).len() == spans(dir).len());
    assert(parts(j).len() == spans(j).len());
    assert(parts(j).take(n) =~= parts(dir).take(n));
}

proof fn lemma_parent_below(dir: Seq<u8>, root: Seq<u8>)
    requires
        below(dir, root) is Some,
        !same_path(dir, root),
    ensures
        parent_of(dir) matches Some(p) ==> below(p, root) is Some,
{
    parent_drops_last_part(dir);
    let n = parts(root).len() as int;
    if let Some(p) = parent_of(dir) {
        if n == parts(dir).len() {
            assert(parts(dir).take(n) =~= parts(dir));
        }
        assert(parts(p).take(n) =~= parts(dir).take(n));
    }
}

/// The file browser does not leave the filesystem that it was opened on: every
/// directory that it asks for lies below the root.
pub proof fn browser_stays_below_root(s: SessionState, key: Key)
    requires
        s.is_sound(),
        s.side matches Some(SideView::FileBrowser { current_dir, root, dir_entries, .. }) && below(
            current_dir,
            root,
        ) is Some && lie_in(current_dir, dir_entries),
    ensures
        pressed(s, key).request matches RequestView::List(d) ==> below(
            d,
            s.side->0->FileBrowser_root,
        ) is Some,
        pressed(s, key).request matches RequestView::ReadLeaf(d) ==> below(
            d,
            s.side->0->FileBrowser_root,
        ) is Some,
{
    if let Some(SideView::FileBrowser { current_dir, root, menu, dir_entries, .. }) = s.side {
        if !same_path(current_dir, root) {
            lemma_parent_below(current_dir, root);
        }
        if key == Key::Enter && menu.cursor < dir_entries.len() {
            let e = dir_entries[menu.cursor];
            let name = choose|name: Seq<u8>| #[trigger]
                is_plain_name(name) && e.path == joined(current_dir, name);
            lemma_child_below(current_dir, root, name);
        }
    }
}

/// Only what the features offer can be chosen: without a rescue shell no key leads
/// to it, and without the filesystem view no file can be booted.
pub proof fn features_bound_choices(s: SessionState, key: Key)
    requires
        s.is_sound(),
    ensures
        pressed(s, key).request matches RequestView::Finish(r) ==> is_offered(r, s.features),
{
}

/// Going back from the entries of a leaf leads to the directory from which it was
/// opened.
pub proof fn leaving_a_leaf_returns_to_its_directory(
    s: SessionState,
    path: Seq<u8>,
    json: Result<String, IoFailure>,
)
    requires
        s.side matches Some(SideView::FileBrowser { .. }),
        after_leaf(s, path, json).side matches Some(SideView::Entries { .. }),
    ensures
        pressed(after_leaf(s, path, json), Key::Escape).state == s,
{
}

/// A source that cannot be opened changes nothing.
pub proof fn failed_open_changes_nothing(
    s: SessionState,
    source_idx: int,
    e: ErrorView,
    boot: Option<Result<Vec<DirItem>, IoFailure>>,
)
    ensures
        after_open(s, source_idx, Err(e), boot) == s,
{
}

/// A passphrase that did not unlock the source changes nothing but the prompt.
pub proof fn failed_unlock_changes_prompt_only(
    s: SessionState,
    e: ErrorView,
    boot: Option<Result<Vec<DirItem>, IoFailure>>,
)
    ensures
        after_unlock(s, Err(e), boot) == (SessionState {
            side: after_unlock(s, Err(e), boot).side,
            ..s
        }),
{
}

/// The key that is handed on is the passphrase that unlocked the source.
pub proof fn unlocked_key_is_handed_on(
    s: SessionState,
    mount_point: Seq<u8>,
    boot: Option<Result<Vec<DirItem>, IoFailure>>,
    uuids: Seq<DiskLink>,
)
    requires
        s.is_sound(),
        s.side matches Some(SideView::Passphrase { .. }),
    ensures
        s.side matches Some(SideView::Passphrase { source_idx, input, .. }) ==> (key_data(
            after_unlock(s, Ok(mount_point), boot).sources,
            source_idx,
            uuids,
        ) matches Some((key, uuid)) ==> key == input),
{
}

} // verus!
