//! Menus, screens and whole sessions.

use kexec_menu::boot::TuiResult;
use kexec_menu::keys::Key;
use kexec_menu::menu::{
    build_entry_menu, build_file_menu, build_source_menu, build_tree_menu, is_bootable_file,
    ItemState, ListedFile, Menu, MenuItem, HEAD_SIZE,
};
use kexec_menu::path::BootPath;
use kexec_menu::render::{
    cleanup, clear_screen, hide_cursor, move_cursor, render_boot_tree, render_countdown,
    render_entries, render_menu, render_passphrase, render_tree_view, reset_style, set_bold,
    set_dim, set_reverse, show_cursor,
};
use kexec_menu::screen::{
    handle_file_browser_key, handle_passphrase_key, handle_source_key, handle_tree_view_key, Action,
};
use kexec_menu::session::{Request, Session, SideScreen};
use kexec_menu::tree::{DirContent, DirItem};
use kexec_menu::treeview::{tree_contains_path, NodeKind, TreeView};
use kexec_menu::types::{
    BootSelection, Entry, Error, Features, IoFailure, Leaf, Source, SourceState, TreeNode,
};

const ALL: Features = Features { full_fs_view: true, rescue_shell: true, disk_whitelist: true };

fn entry(name: &str) -> Entry {
    Entry { name: name.into(), kernel: "k".into(), initrd: "i".into(), cmdline: "c".into() }
}

fn leaf(path: &str, names: &[&str]) -> TreeNode {
    let entries = names.iter().map(|n| entry(n)).collect();
    TreeNode::Leaf(Leaf { path: BootPath::from_text(path), entries, mtime: 1 })
}

fn source(label: &str, state: SourceState, mount: Option<&str>) -> Source {
    Source {
        label: label.into(),
        device: BootPath::from_text(&format!("/dev/{label}")),
        state,
        mount_point: mount.map(BootPath::from_text),
        passphrase: None,
    }
}

fn sources() -> Vec<Source> {
    vec![
        source("disk", SourceState::Mounted, Some("/m")),
        source("vault", SourceState::Encrypted, None),
        source("bad", SourceState::Error("needs fsck".into()), None),
        source("bare", SourceState::Mounted, Some("/n")),
    ]
}

fn trees() -> Vec<(String, Vec<TreeNode>)> {
    let dir = TreeNode::Dir { name: "nixos".into(), children: vec![leaf("/m/boot/nixos/g1", &["one", "two"])] };
    vec![
        ("disk".into(), vec![dir, leaf("/m/boot/zz", &["last"])]),
        ("vault".into(), vec![]),
        ("bad".into(), vec![]),
        ("bare".into(), vec![]),
    ]
}

fn default() -> BootSelection {
    BootSelection { leaf_path: BootPath::from_text("/m/boot/nixos/g1"), entry_name: "two".into() }
}

fn session() -> Session {
    Session::new(ALL, sources(), trees(), Some(default()))
}

/// Presses keys, of which none but the last leads to anything outside.
fn press(s: &mut Session, keys: &[Key]) -> (Request, String) {
    let mut out = String::new();
    let mut request = Request::Wait;
    for key in keys {
        assert!(matches!(request, Request::Wait));
        out.clear();
        request = s.press(key, &mut out);
    }
    (request, out)
}

fn failure(message: &str) -> IoFailure {
    IoFailure { code: None, message: message.into() }
}

// --- Escape sequences ---

#[test]
fn escape_sequences_are_exact() {
    let mut w = String::new();
    clear_screen(&mut w);
    move_cursor(&mut w, 12, 340);
    set_bold(&mut w);
    set_reverse(&mut w);
    set_dim(&mut w);
    reset_style(&mut w);
    hide_cursor(&mut w);
    show_cursor(&mut w);
    assert_eq!(w, "\x1b[2J\x1b[H\x1b[12;340H\x1b[1m\x1b[7m\x1b[2m\x1b[0m\x1b[?25l\x1b[?25h");
    let mut w = String::new();
    cleanup(&mut w);
    assert_eq!(w, "\x1b[?25h\x1b[2J\x1b[H");
}

const TOP: &str = "\x1b[2J\x1b[H\x1b[1;1H\x1b[1m kexec-menu\x1b[0m";

fn item(label: &str, detail: &str, state: ItemState) -> MenuItem {
    MenuItem { label: label.into(), detail: detail.into(), state }
}

#[test]
fn menu_screen_is_exact() {
    let items = vec![
        item("a", "", ItemState::Default),
        item("b", "locked", ItemState::Locked),
        item("c", "", ItemState::Error("e".into())),
        item("d", "x", ItemState::Normal),
    ];
    let mut menu = Menu::new(items, Some(3));
    let mut w = String::new();
    render_menu(&mut w, "Title", "crumb", &menu, "hint");
    let expected = format!(
        "{TOP}\x1b[2m > crumb\x1b[0m\r\n\r\n\x1b[1m Title\r\n\x1b[0m\r\n{}{}{}{}\r\n\x1b[2m hint\x1b[0m",
        "  * a\r\n",
        "  L b\x1b[2m  locked\x1b[0m\r\n",
        "  ! c\r\n",
        " \x1b[7m   d\x1b[0m\x1b[2m  x\x1b[0m\r\n",
    );
    assert_eq!(w, expected);
    menu.move_up();
    menu.move_up();
    menu.move_up();
    let mut w = String::new();
    render_menu(&mut w, "T", "", &menu, "h");
    assert!(w.starts_with(&format!("{TOP}\r\n\r\n\x1b[1m T\r\n\x1b[0m\r\n \x1b[7m * a\x1b[0m\r\n")));
}

#[test]
fn tree_and_entry_screens_have_their_hints() {
    let menu = Menu::new(vec![], None);
    let mut w = String::new();
    render_boot_tree(&mut w, "disk", &menu);
    assert!(w.contains(" > disk\x1b[0m") && w.contains("\x1b[1m Boot Tree\r\n"));
    assert!(w.ends_with("\x1b[2m ↑↓ navigate  Enter select  Esc back  f full filesystem\x1b[0m"));
    let mut w = String::new();
    render_entries(&mut w, "disk", "g1", &menu);
    assert!(w.contains(" > disk > g1\x1b[0m"));
    assert!(w.ends_with("\x1b[2m ↑↓ navigate  Enter boot  Esc back\x1b[0m"));
}

#[test]
fn prompts_differ_only_by_length() {
    let shown = |input: &str| {
        let mut w = String::new();
        render_passphrase(&mut w, "vault", input, None);
        w
    };
    assert_eq!(shown("secret"), shown("hunter"));
    assert_eq!(shown("é"), shown("ab"));
    assert_ne!(shown("a"), shown("ab"));
    assert!(!shown("secret").contains("secret"));
    assert!(shown("abc").contains(" Passphrase: ***\x1b[?25h\r\n"));
}

#[test]
fn tree_view_screen_is_exact() {
    let view = TreeView::build(&sources(), &trees(), Some(&default()));
    let mut w = String::new();
    render_tree_view(&mut w, &view);
    let expected = format!(
        "{TOP}\r\n\r\n\x1b[1m Boot Sources\r\n\x1b[0m\r\n - disk\r\n   - nixos/\r\n     - g1\r\n         \
         one\r\n \x1b[7m      * two\x1b[0m\r\n   + zz\r\n L vault\r\n ! bad\r\n   bare\r\n\r\n\x1b[2m \
         ↑↓ navigate  ←→ fold  Enter select  f full filesystem  r rescan  s shell  q quit\x1b[0m"
    );
    assert_eq!(w, expected);
    let mut w = String::new();
    render_countdown(&mut w, 17);
    assert_eq!(w, "\r\n\r\n Booting default entry in 17s, press any key to cancel");
}

// --- Menus ---

#[test]
fn cursor_stays_on_the_items() {
    let mut menu = Menu::new(vec![item("a", "", ItemState::Normal), item("b", "", ItemState::Normal)], Some(9));
    assert_eq!(menu.selected_index(), 1);
    menu.move_down();
    assert_eq!(menu.selected_index(), 1);
    menu.move_up();
    menu.move_up();
    assert_eq!(menu.selected().unwrap().label, "a");
    let empty = Menu::new(vec![], Some(3));
    assert!(empty.is_empty() && empty.selected().is_none());
    assert_eq!(empty.selected_index(), 0);
}

#[test]
fn menus_start_on_the_way_to_the_default() {
    let d = default();
    let mut with_static = trees();
    with_static.swap(0, 3);
    assert_eq!(build_source_menu(&sources(), Some(&d), &with_static).cursor, 3);
    assert_eq!(build_source_menu(&sources(), None, &trees()).cursor, 0);
    let (menu, nodes) = build_tree_menu(&trees()[0].1, Some(&d));
    assert_eq!((menu.cursor, nodes.len()), (1, 3));
    let menu = build_entry_menu(&[entry("one"), entry("two")], Some(&d), &d.leaf_path);
    assert_eq!(menu.cursor, 1);
    assert!(matches!(menu.items[1].state, ItemState::Default));
}

#[test]
fn paths_are_found_in_trees() {
    let t = trees();
    assert!(tree_contains_path(&t[0].1, &BootPath::from_text("/m/boot/nixos/g1")));
    assert!(!tree_contains_path(&t[0].1, &BootPath::from_text("/m/boot/nixos")));
}

fn listed(name: &str, is_dir: bool, head: &[u8]) -> ListedFile {
    ListedFile { name: name.as_bytes().to_vec(), is_dir: Ok(is_dir), is_leaf: false, head: head.to_vec() }
}

#[test]
fn kernels_are_told_by_their_first_bytes() {
    let mut head = vec![0u8; HEAD_SIZE];
    assert!(!is_bootable_file(&head));
    head[0x202..0x206].copy_from_slice(b"HdrS");
    assert!(is_bootable_file(&head) && is_bootable_file(b"MZ"));
    assert!(!is_bootable_file(&head[..HEAD_SIZE - 1]) && !is_bootable_file(b"M"));
}

#[test]
fn listings_report_the_first_failure_by_name() {
    let dir = BootPath::from_text("/d");
    let bad = ListedFile { name: b"b".to_vec(), is_dir: Err(failure("b")), is_leaf: false, head: vec![] };
    let worse = ListedFile { name: b"a".to_vec(), is_dir: Err(failure("a")), is_leaf: false, head: vec![] };
    match build_file_menu(&dir, Ok(vec![bad, listed("0", true, b""), worse])) {
        Err(Error::Io(f)) => assert_eq!(f.message, "a"),
        other => panic!("{other:?}"),
    }
    assert!(matches!(build_file_menu(&dir, Err(failure("gone"))), Err(Error::Io(_))));
}

#[test]
fn a_directory_is_never_bootable() {
    let (menu, entries) = build_file_menu(&BootPath::from_text("/d"), Ok(vec![listed("x", true, b"MZ")])).unwrap();
    assert!(entries[0].is_dir && !entries[0].is_bootable);
    assert_eq!((menu.items[0].label.as_str(), menu.items[0].detail.as_str()), ("x/", ""));
    assert_eq!(entries[0].path.to_text(), "/d/x");
}

// --- Keys ---

#[test]
fn a_typed_character_can_be_taken_back() {
    let mut input = "pä".to_string();
    assert!(matches!(handle_passphrase_key(&mut input, &Key::Char('×')), Action::Redraw));
    assert_eq!(input, "pä×");
    handle_passphrase_key(&mut input, &Key::Backspace);
    assert_eq!(input, "pä");
    handle_passphrase_key(&mut input, &Key::Backspace);
    assert_eq!(input, "p");
}

#[test]
fn tree_view_keys_have_their_actions() {
    let mut v = TreeView::build(&sources(), &trees(), Some(&default()));
    assert!(matches!(handle_tree_view_key(&mut v, &Key::Char('F')), Action::OpenFileBrowser));
    assert!(matches!(handle_tree_view_key(&mut v, &Key::Char('s')), Action::DropToShell));
    assert!(matches!(handle_tree_view_key(&mut v, &Key::Char('R')), Action::RefreshSources));
    assert!(matches!(handle_tree_view_key(&mut v, &Key::Char('q')), Action::Quit));
    assert!(matches!(handle_tree_view_key(&mut v, &Key::Char('x')), Action::Ignored));
    assert!(matches!(handle_tree_view_key(&mut v, &Key::Escape), Action::Ignored));
    match handle_tree_view_key(&mut v, &Key::Enter) {
        Action::Boot { source_idx, entry } => assert_eq!((source_idx, entry.name.as_str()), (0, "two")),
        other => panic!("{other:?}"),
    }
    handle_tree_view_key(&mut v, &Key::Down);
    handle_tree_view_key(&mut v, &Key::Down);
    assert!(matches!(handle_tree_view_key(&mut v, &Key::Enter), Action::UnlockSource(1)));
    handle_tree_view_key(&mut v, &Key::Down);
    assert!(matches!(handle_tree_view_key(&mut v, &Key::Enter), Action::OpenSource(2)));
    handle_tree_view_key(&mut v, &Key::Down);
    assert!(matches!(handle_tree_view_key(&mut v, &Key::Enter), Action::Ignored));
}

#[test]
fn a_source_in_an_error_state_can_be_tried() {
    let items = vec![item("a", "", ItemState::Normal), item("b", "", ItemState::Error("needs fsck".into()))];
    let mut menu = Menu::new(items, Some(1));
    assert!(matches!(handle_source_key(&mut menu, &Key::Enter), Action::OpenSource(1)));
    assert_eq!(menu.cursor, 1);
}

#[test]
fn a_leaf_directory_opens_its_entries() {
    let dir = BootPath::from_text("/d");
    let leaf = ListedFile { is_leaf: true, ..listed("g1", true, b"") };
    let stray = ListedFile { is_leaf: true, ..listed("g2", false, b"MZ") };
    let (mut menu, entries) = build_file_menu(&dir, Ok(vec![leaf, stray, listed("g3", true, b"")])).unwrap();
    assert!(entries[0].is_leaf && !entries[1].is_leaf && !entries[2].is_leaf);
    let mut enter = |menu: &mut Menu| handle_file_browser_key(menu, &entries, &dir, &dir, &Key::Enter);
    assert!(matches!(enter(&mut menu), Action::OpenLeaf(0)));
    menu.move_down();
    assert!(matches!(enter(&mut menu), Action::BootFile { .. }));
    menu.move_down();
    assert!(matches!(enter(&mut menu), Action::OpenDir(2)));
}

#[test]
fn folding_twice_and_moving_back_change_nothing() {
    let mut v = TreeView::build(&sources(), &trees(), Some(&default()));
    let before = format!("{v:?}");
    v.move_up();
    v.move_down();
    assert_eq!(format!("{v:?}"), before);
    v.move_down();
    v.move_up();
    assert_eq!(format!("{v:?}"), before);
    let mut v = TreeView::build(&sources(), &trees(), None);
    let before = format!("{v:?}");
    assert!(v.toggle());
    assert_ne!(format!("{v:?}"), before);
    assert!(v.toggle());
    assert_eq!(format!("{v:?}"), before);
    assert!(v.expand());
    let open = format!("{v:?}");
    assert!(!v.expand());
    assert_eq!(format!("{v:?}"), open);
    assert_eq!(v.visible_count(), 6);
    assert!(v.collapse());
    assert_eq!(v.visible_count(), 4);
}

#[test]
fn every_source_and_every_entry_has_a_row() {
    let v = TreeView::build(&sources(), &trees(), Some(&default()));
    let tops: Vec<&str> = v
        .nodes
        .iter()
        .filter_map(|n| match &n.kind {
            NodeKind::Source { label, .. } if n.visible && n.depth == 0 => Some(label.as_str()),
            _ => None,
        })
        .collect();
    assert_eq!(tops, ["disk", "vault", "bad", "bare"]);
    let entries: Vec<&str> = v
        .nodes
        .iter()
        .filter_map(|n| match &n.kind {
            NodeKind::Entry { entry, source_idx: 0 } => Some(entry.name.as_str()),
            _ => None,
        })
        .collect();
    assert_eq!(entries, ["one", "two", "last"]);
    match v.selected() {
        Some(n) => assert!(n.is_default && n.visible),
        None => panic!("nothing is selected"),
    }
}

#[test]
fn a_leaf_in_two_sources_is_preselected_in_neither() {
    // The way is open to the first, and the last is marked too.
    let twin = |label: &str| (label.to_string(), vec![leaf("/same", &["e"])]);
    let sources = vec![source("a", SourceState::Mounted, None), source("b", SourceState::Mounted, None)];
    let sel = BootSelection { leaf_path: BootPath::from_text("/same"), entry_name: "e".into() };
    let v = TreeView::build(&sources, &[twin("a"), twin("b")], Some(&sel));
    assert_eq!(v.cursor, 0);
    assert_eq!(v.nodes.iter().filter(|n| n.is_default).count(), 2);
}

// --- Sessions ---

#[test]
fn quitting_and_leaving_for_the_shell() {
    let (request, out) = press(&mut session(), &[Key::Char('q')]);
    assert!(matches!(request, Request::Finish(TuiResult::Quit)));
    assert_eq!(out, "\x1b[?25h\x1b[2J\x1b[H");
    let (request, out) = press(&mut session(), &[Key::Char('S')]);
    assert!(matches!(request, Request::Finish(TuiResult::Shell)));
    assert_eq!(out, "\x1b[?25h\x1b[2J\x1b[H");
}

#[test]
fn entries_boot_from_the_leaf_above_them() {
    match press(&mut session(), &[Key::Enter]).0 {
        Request::Finish(TuiResult::Boot { leaf_path, entry, source_idx }) => {
            assert_eq!((leaf_path.to_text().as_str(), entry.name.as_str()), ("/m/boot/nixos/g1", "two"));
            assert_eq!(source_idx, 0);
        }
        other => panic!("{other:?}"),
    }
    match press(&mut session(), &[Key::Down, Key::Right, Key::Down, Key::Enter]).0 {
        Request::Finish(TuiResult::Boot { leaf_path, entry, .. }) => {
            assert_eq!((leaf_path.to_text().as_str(), entry.name.as_str()), ("/m/boot/zz", "last"));
        }
        other => panic!("{other:?}"),
    }
}

fn at_prompt(typed: &str) -> Session {
    let mut s = session();
    press(&mut s, &[Key::Down, Key::Down, Key::Enter]);
    for c in typed.chars() {
        press(&mut s, &[Key::Char(c)]);
    }
    s
}

#[test]
fn locked_sources_ask_for_a_passphrase() {
    let mut s = at_prompt("pw");
    let mut w = String::new();
    s.render(&mut w);
    assert!(w.contains(" > vault\x1b[0m") && w.contains(" Passphrase: **\x1b[?25h"));
    let (request, out) = press(&mut s, &[Key::Enter]);
    assert_eq!(out, "");
    match request {
        Request::Unlock { device, passphrase } => {
            assert_eq!((device.to_text().as_str(), passphrase.as_str()), ("/dev/vault", "pw"));
        }
        other => panic!("{other:?}"),
    }
}

#[test]
fn leaving_the_prompt_hides_the_cursor() {
    let mut s = at_prompt("pw");
    let (request, out) = press(&mut s, &[Key::Escape]);
    assert!(matches!(request, Request::Wait) && s.side.is_none());
    assert_eq!(out, "\x1b[?25l");
}

#[test]
fn a_failed_attempt_starts_the_prompt_over() {
    let mut s = at_prompt("wrong");
    let before = format!("{:?}{:?}{:?}", s.sources, s.trees, s.view);
    let mut out = String::new();
    s.unlocked(Err(Error::Parse("cryptsetup: No key available".into())), &None, &mut out);
    assert_eq!(out, "");
    assert_eq!(format!("{:?}{:?}{:?}", s.sources, s.trees, s.view), before);
    match &s.side {
        Some(SideScreen::Passphrase { source_idx, input, error, .. }) => {
            assert_eq!((*source_idx, input.as_str()), (1, ""));
            assert_eq!(error.as_deref(), Some("cryptsetup: No key available"));
        }
        other => panic!("{other:?}"),
    }
    press(&mut s, &[Key::Char('x')]);
    let mut w = String::new();
    s.render(&mut w);
    assert!(w.contains(" Error: \x1b[0mcryptsetup: No key available\r\n"));
}

#[test]
fn an_unlocked_source_shows_its_tree_and_keeps_its_key() {
    let mut s = at_prompt("pw");
    let json = r#"[{"name":"safe","kernel":"k","initrd":"i","cmdline":"c"}]"#;
    let content = DirContent::Leaf { json: Ok(json.into()), mtime: Ok(4) };
    let boot = Some(Ok(vec![DirItem { name: b"g9".to_vec(), content }]));
    let mut out = String::new();
    s.unlocked(Ok(BootPath::from_text("/mnt/v")), &boot, &mut out);
    assert_eq!(out, "\x1b[?25l");
    assert!(s.side.is_none());
    assert!(matches!(s.sources[1].state, SourceState::Mounted));
    assert_eq!(s.sources[1].passphrase.as_deref(), Some("pw"));
    assert_eq!(s.trees[1].0, "vault");
    let (request, _) =
        press(&mut s, &[Key::Down, Key::Down, Key::Right, Key::Down, Key::Right, Key::Down, Key::Enter]);
    match request {
        Request::Finish(TuiResult::Boot { leaf_path, entry, source_idx }) => {
            assert_eq!((leaf_path.to_text().as_str(), entry.name.as_str()), ("/mnt/v/boot/g9", "safe"));
            assert_eq!(source_idx, 1);
        }
        other => panic!("{other:?}"),
    }
}

fn browsing() -> Session {
    let mut s = session();
    match press(&mut s, &[Key::Char('f')]).0 {
        Request::List(dir) => {
            assert_eq!(dir.to_text(), "/m");
            let files = vec![listed("vmlinuz", false, b"MZ"), listed("etc", true, b""), listed("notes", false, b"")];
            s.listed(dir, Ok(files));
        }
        other => panic!("{other:?}"),
    }
    s
}

#[test]
fn files_are_browsed_below_the_mount_point() {
    let mut s = browsing();
    let mut w = String::new();
    s.render(&mut w);
    assert!(w.contains(" > disk [fs]\x1b[0m") && w.contains("\x1b[1m /\r\n"));
    match press(&mut s, &[Key::Enter]).0 {
        Request::List(dir) => {
            assert_eq!(dir.to_text(), "/m/etc");
            s.listed(dir, Ok(vec![]));
        }
        other => panic!("{other:?}"),
    }
    let mut w = String::new();
    s.render(&mut w);
    assert!(w.contains("\x1b[1m /etc\r\n"));
    assert!(matches!(press(&mut s, &[Key::Enter]).0, Request::Wait));
    match press(&mut s, &[Key::Escape]).0 {
        Request::List(dir) => {
            assert_eq!(dir.to_text(), "/m");
            s.listed(dir, Ok(vec![]));
        }
        other => panic!("{other:?}"),
    }
    assert!(matches!(press(&mut s, &[Key::Char('b')]).0, Request::Wait));
    assert!(s.side.is_none());
}

#[test]
fn files_are_booted_or_left_alone() {
    let mut s = browsing();
    assert!(matches!(press(&mut s, &[Key::Down, Key::Enter]).0, Request::Wait));
    match press(&mut s, &[Key::Down, Key::Enter]) {
        (Request::Finish(TuiResult::BootFile { path }), out) => {
            assert_eq!((path.to_text().as_str(), out.as_str()), ("/m/vmlinuz", "\x1b[?25h\x1b[2J\x1b[H"));
        }
        other => panic!("{other:?}"),
    }
}

#[test]
fn a_directory_that_cannot_be_listed_is_not_opened() {
    let mut s = browsing();
    s.listed(BootPath::from_text("/m/etc"), Err(failure("denied")));
    match &s.side {
        Some(SideScreen::FileBrowser { current_dir, .. }) => assert_eq!(current_dir.to_text(), "/m"),
        other => panic!("{other:?}"),
    }
    let mut s = session();
    press(&mut s, &[Key::Char('f')]);
    s.listed(BootPath::from_text("/m"), Err(failure("denied")));
    assert!(s.side.is_none());
}

#[test]
fn sources_without_a_mount_point_are_not_browsed() {
    let mut s = session();
    assert!(matches!(press(&mut s, &[Key::Down, Key::Down, Key::Char('f')]).0, Request::Wait));
    assert!(s.side.is_none());
}

#[test]
fn rescanning_chooses_the_default_anew() {
    let mut s = session();
    assert!(matches!(press(&mut s, &[Key::Char('r')]).0, Request::Rescan));
    let found = vec![source("new", SourceState::Mounted, Some("/x"))];
    s.rescanned(found, vec![("new".into(), vec![leaf("/x/boot/g", &["fresh"])])]);
    assert_eq!(s.sources.len(), 1);
    match press(&mut s, &[Key::Enter]).0 {
        Request::Finish(TuiResult::Boot { leaf_path, entry, .. }) => {
            assert_eq!((leaf_path.to_text().as_str(), entry.name.as_str()), ("/x/boot/g", "fresh"));
        }
        other => panic!("{other:?}"),
    }
    assert_eq!(s.default, Some(default()));
}

fn at_leaf(json: Result<String, IoFailure>) -> Session {
    let mut s = session();
    press(&mut s, &[Key::Char('f')]);
    let leaf = ListedFile { is_leaf: true, ..listed("g7", true, b"") };
    s.listed(BootPath::from_text("/m"), Ok(vec![listed("a", false, b""), leaf]));
    match press(&mut s, &[Key::Down, Key::Enter]).0 {
        Request::ReadLeaf(path) => {
            assert_eq!(path.to_text(), "/m/g7");
            s.leaf_read(path, json);
        }
        other => panic!("{other:?}"),
    }
    s
}

const TWO: &str = r#"[{"name":"x","kernel":"k","initrd":"i","cmdline":"quiet"},
    {"name":"y","kernel":"k","initrd":"i","cmdline":""}]"#;

#[test]
fn entries_of_a_browsed_leaf_are_booted() {
    let mut s = at_leaf(Ok(TWO.into()));
    let mut w = String::new();
    s.render(&mut w);
    assert!(w.contains(" > disk > g7\x1b[0m") && w.contains("\x1b[1m Boot Entries\r\n"));
    assert!(w.contains("x\x1b[0m\x1b[2m  quiet\x1b[0m\r\n"));
    match press(&mut s, &[Key::Down, Key::Enter]) {
        (Request::Finish(TuiResult::Boot { leaf_path, entry, source_idx }), out) => {
            assert_eq!((leaf_path.to_text().as_str(), entry.name.as_str()), ("/m/g7", "y"));
            assert_eq!((source_idx, out.as_str()), (0, "\x1b[?25h\x1b[2J\x1b[H"));
        }
        other => panic!("{other:?}"),
    }
}

#[test]
fn a_browsed_leaf_is_left_for_its_directory() {
    let mut s = at_leaf(Ok(TWO.into()));
    assert!(matches!(press(&mut s, &[Key::Down, Key::Escape]).0, Request::Wait));
    match &s.side {
        Some(SideScreen::FileBrowser { current_dir, menu, dir_entries, .. }) => {
            assert_eq!((current_dir.to_text().as_str(), menu.cursor, dir_entries.len()), ("/m", 1, 2));
        }
        other => panic!("{other:?}"),
    }
}

#[test]
fn a_leaf_that_cannot_be_read_is_not_opened() {
    for json in [Err(failure("denied")), Ok("nonsense".to_string())] {
        let s = at_leaf(json);
        assert!(matches!(s.side, Some(SideScreen::FileBrowser { .. })));
    }
}

#[test]
fn a_source_with_an_error_is_opened_or_left() {
    let try_open = |outcome: Result<BootPath, Error>| {
        let mut s = session();
        match press(&mut s, &[Key::Down, Key::Down, Key::Down, Key::Enter]).0 {
            Request::Open { source_idx, device } => {
                assert_eq!((source_idx, device.to_text().as_str()), (2, "/dev/bad"));
                let content = DirContent::Leaf { json: Ok(TWO.into()), mtime: Ok(1) };
                let boot = Some(Ok(vec![DirItem { name: b"g".to_vec(), content }]));
                s.opened(source_idx, outcome, &boot);
            }
            other => panic!("{other:?}"),
        }
        s
    };
    let s = try_open(Ok(BootPath::from_text("/r")));
    assert!(matches!(s.sources[2].state, SourceState::Mounted));
    assert_eq!(s.sources[2].mount_point, Some(BootPath::from_text("/r")));
    assert_eq!((s.trees[2].0.as_str(), s.trees[2].1.len()), ("bad", 1));
    let s = try_open(Err(Error::Parse("still broken".into())));
    assert!(matches!(&s.sources[2].state, SourceState::Error(e) if e == "needs fsck"));
    assert!(s.trees[2].1.is_empty() && s.view.cursor == 8);
}

#[test]
fn a_locked_down_menu_offers_neither_files_nor_a_shell() {
    let none = Features { full_fs_view: false, rescue_shell: false, disk_whitelist: false };
    let mut s = Session::new(none, sources(), trees(), Some(default()));
    for key in [Key::Char('f'), Key::Char('F'), Key::Char('s'), Key::Char('S')] {
        let (request, out) = press(&mut s, &[key]);
        assert!(matches!(request, Request::Wait) && s.side.is_none());
        assert_eq!(out, "");
    }
    assert!(matches!(press(&mut s, &[Key::Char('q')]).0, Request::Finish(TuiResult::Quit)));
}
