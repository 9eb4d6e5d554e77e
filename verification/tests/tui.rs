//! Keys, menus, screens and the tree view.

use kexec_menu::keys::{read_key, Key};
use kexec_menu::menu::{
    build_file_menu, flatten_tree, is_bootable_file, DirEntry, FlatNode, FlatNodeKind, ItemState,
    ListedFile, Menu, MenuItem,
};
use kexec_menu::path::BootPath;
use kexec_menu::render::{render_file_browser, render_passphrase, render_sources};
use kexec_menu::screen::{
    handle_entry_key, handle_file_browser_key, handle_passphrase_key, handle_source_key,
    handle_tree_key, Action,
};
use kexec_menu::treeview::{NodeKind, NodeSourceState, TreeView};
use kexec_menu::types::{BootSelection, Entry, Leaf, Source, SourceState, TreeNode};


// --- Input parsing tests ---

#[test]
fn parse_arrow_up() {
    let input: &[u8] = b"\x1b[A";
    assert_eq!(read_key(input).unwrap().0, Key::Up);
}

#[test]
fn parse_arrow_down() {
    let input: &[u8] = b"\x1b[B";
    assert_eq!(read_key(input).unwrap().0, Key::Down);
}

#[test]
fn parse_enter_cr() {
    let input: &[u8] = b"\r";
    assert_eq!(read_key(input).unwrap().0, Key::Enter);
}

#[test]
fn parse_enter_lf() {
    let input: &[u8] = b"\n";
    assert_eq!(read_key(input).unwrap().0, Key::Enter);
}

#[test]
fn parse_char() {
    let input: &[u8] = b"q";
    assert_eq!(read_key(input).unwrap().0, Key::Char('q'));
}

#[test]
fn parse_bare_escape() {
    // Escape followed by EOF -> Escape key
    let input: &[u8] = b"\x1b";
    assert_eq!(read_key(input).unwrap().0, Key::Escape);
}

// --- Menu navigation tests ---

fn test_menu(n: usize) -> Menu {
    let items: Vec<MenuItem> = (0..n)
        .map(|i| MenuItem {
            label: format!("item{i}"),
            detail: String::new(),
            state: ItemState::Normal,
        })
        .collect();
    Menu::new(items, None)
}

#[test]
fn menu_starts_at_zero() {
    let m = test_menu(3);
    assert_eq!(m.cursor, 0);
}

#[test]
fn menu_starts_at_preselected() {
    let items: Vec<MenuItem> = (0..3)
        .map(|i| MenuItem {
            label: format!("item{i}"),
            detail: String::new(),
            state: ItemState::Normal,
        })
        .collect();
    let m = Menu::new(items, Some(2));
    assert_eq!(m.cursor, 2);
}

#[test]
fn menu_move_down() {
    let mut m = test_menu(3);
    m.move_down();
    assert_eq!(m.cursor, 1);
    m.move_down();
    assert_eq!(m.cursor, 2);
    m.move_down(); // at end, stays
    assert_eq!(m.cursor, 2);
}

#[test]
fn menu_move_up() {
    let mut m = test_menu(3);
    m.move_up(); // at start, stays
    assert_eq!(m.cursor, 0);
    m.cursor = 2;
    m.move_up();
    assert_eq!(m.cursor, 1);
}

#[test]
fn menu_preselected_clamped() {
    let items = vec![MenuItem {
        label: "only".into(),
        detail: String::new(),
        state: ItemState::Normal,
    }];
    let m = Menu::new(items, Some(99));
    assert_eq!(m.cursor, 0);
}

// --- Flatten tree tests ---

fn entry(name: &str) -> Entry {
    Entry {
        name: name.into(),
        kernel: "vmlinuz".into(),
        initrd: "initrd".into(),
        cmdline: "root=/dev/sda1".into(),
    }
}

fn leaf_node(path: &str, names: &[&str]) -> TreeNode {
    TreeNode::Leaf(Leaf {
        path: BootPath::from_text(path),
        entries: names.iter().map(|n| entry(n)).collect(),
        mtime: 100,
    })
}

#[test]
fn flatten_simple_tree() {
    let tree = vec![
        TreeNode::Dir {
            name: "nixos".into(),
            children: vec![
                leaf_node("/boot/nixos/gen1", &["default"]),
                leaf_node("/boot/nixos/gen2", &["default"]),
            ],
        },
        leaf_node("/boot/other", &["other"]),
    ];
    let flat = flatten_tree(&tree, 0);
    assert_eq!(flat.len(), 4); // dir + 2 leaves + 1 leaf
    assert_eq!(flat[0].depth, 0);
    assert_eq!(flat[1].depth, 1);
    assert_eq!(flat[2].depth, 1);
    assert_eq!(flat[3].depth, 0);
}

#[test]
fn flatten_preserves_names() {
    let tree = vec![leaf_node("/boot/gen1", &["default"])];
    let flat = flatten_tree(&tree, 0);
    match &flat[0].kind {
        FlatNodeKind::Leaf { name, .. } => assert_eq!(name, "gen1"),
        _ => panic!("expected leaf"),
    }
}

// --- Render tests (output sanity) ---

#[test]
fn render_sources_produces_output() {
    let mut output = String::new();
    let menu = test_menu(2);
    render_sources(&mut output, &menu);
    assert!(output.contains("kexec-menu"));
    assert!(output.contains("Boot Sources"));
    assert!(output.contains("item0"));
    assert!(output.contains("item1"));
}

// --- Action handling tests ---

#[test]
fn source_key_enter_opens() {
    let mut menu = test_menu(2);
    let action = handle_source_key(&mut menu, &Key::Enter);
    assert!(matches!(action, Action::OpenSource(0)));
}

#[test]
fn source_key_enter_locked_unlocks() {
    let items = vec![MenuItem {
        label: "locked".into(),
        detail: String::new(),
        state: ItemState::Locked,
    }];
    let mut menu = Menu::new(items, None);
    let action = handle_source_key(&mut menu, &Key::Enter);
    assert!(matches!(action, Action::UnlockSource(0)));
}

#[test]
fn source_key_q_quits() {
    let mut menu = test_menu(1);
    let action = handle_source_key(&mut menu, &Key::Char('q'));
    assert!(matches!(action, Action::Quit));
}

#[test]
fn tree_key_enter_on_dir_noop() {
    let nodes = vec![FlatNode {
        depth: 0,
        kind: FlatNodeKind::Dir { name: "nixos".into() },
    }];
    let items = vec![MenuItem {
        label: "nixos/".into(),
        detail: String::new(),
        state: ItemState::Normal,
    }];
    let mut menu = Menu::new(items, None);
    let action = handle_tree_key(&mut menu, &nodes, &Key::Enter);
    assert!(matches!(action, Action::Ignored));
}

#[test]
fn tree_key_enter_on_leaf_opens() {
    let nodes = vec![FlatNode {
        depth: 0,
        kind: FlatNodeKind::Leaf {
            name: "gen1".into(),
            entry_count: 1,
            path: BootPath::from_text("/boot/gen1"),
        },
    }];
    let items = vec![MenuItem {
        label: "gen1".into(),
        detail: "1 entries".into(),
        state: ItemState::Normal,
    }];
    let mut menu = Menu::new(items, None);
    let action = handle_tree_key(&mut menu, &nodes, &Key::Enter);
    assert!(matches!(action, Action::OpenLeaf(0)));
}

#[test]
fn entry_key_enter_boots() {
    let entries = vec![entry("default")];
    let items = vec![MenuItem {
        label: "default".into(),
        detail: String::new(),
        state: ItemState::Normal,
    }];
    let mut menu = Menu::new(items, None);
    let action = handle_entry_key(&mut menu, &entries, 0, &Key::Enter);
    match action {
        Action::Boot { source_idx, entry: e } => {
            assert_eq!(source_idx, 0);
            assert_eq!(e.name, "default");
        }
        _ => panic!("expected Boot action"),
    }
}

#[test]
fn entry_key_escape_goes_back() {
    let entries = vec![entry("default")];
    let items = vec![MenuItem {
        label: "default".into(),
        detail: String::new(),
        state: ItemState::Normal,
    }];
    let mut menu = Menu::new(items, None);
    let action = handle_entry_key(&mut menu, &entries, 0, &Key::Escape);
    assert!(matches!(action, Action::Back));
}

// --- Backspace key parsing ---

#[test]
fn parse_backspace_del() {
    let input: &[u8] = b"\x7f";
    assert_eq!(read_key(input).unwrap().0, Key::Backspace);
}

#[test]
fn parse_backspace_bs() {
    let input: &[u8] = b"\x08";
    assert_eq!(read_key(input).unwrap().0, Key::Backspace);
}

// --- Passphrase input handling tests ---

#[test]
fn passphrase_char_appends() {
    let mut input = String::new();
    let action = handle_passphrase_key(&mut input, &Key::Char('a'));
    assert!(matches!(action, Action::Redraw));
    assert_eq!(input, "a");
    handle_passphrase_key(&mut input, &Key::Char('b'));
    assert_eq!(input, "ab");
}

#[test]
fn passphrase_backspace_removes() {
    let mut input = String::from("abc");
    let action = handle_passphrase_key(&mut input, &Key::Backspace);
    assert!(matches!(action, Action::Redraw));
    assert_eq!(input, "ab");
}

#[test]
fn passphrase_backspace_empty_noop() {
    let mut input = String::new();
    handle_passphrase_key(&mut input, &Key::Backspace);
    assert_eq!(input, "");
}

#[test]
fn passphrase_enter_submits() {
    let mut input = String::from("secret");
    let action = handle_passphrase_key(&mut input, &Key::Enter);
    assert!(matches!(action, Action::SubmitPassphrase));
}

#[test]
fn passphrase_escape_cancels() {
    let mut input = String::from("partial");
    let action = handle_passphrase_key(&mut input, &Key::Escape);
    assert!(matches!(action, Action::Back));
}

#[test]
fn render_passphrase_output() {
    let mut output = String::new();
    render_passphrase(&mut output, "my-disk", "secret", None);
    assert!(output.contains("kexec-menu"));
    assert!(output.contains("my-disk"));
    assert!(output.contains("Unlock Encrypted Source"));
    assert!(output.contains("******")); // 6 asterisks for "secret"
    assert!(!output.contains("secret")); // passphrase not leaked
}

#[test]
fn render_passphrase_with_error() {
    let mut output = String::new();
    render_passphrase(&mut output, "disk", "", Some("bad passphrase"));
    assert!(output.contains("Error:"));
    assert!(output.contains("bad passphrase"));
}

// --- File browser tests ---

fn file(name: &str, data: &[u8]) -> ListedFile {
    ListedFile {
        name: name.as_bytes().to_vec(),
        is_dir: Ok(false),
        is_leaf: false,
        head: data.to_vec(),
    }
}

fn dir(name: &str) -> ListedFile {
    ListedFile {
        name: name.as_bytes().to_vec(),
        is_dir: Ok(true),
        is_leaf: false,
        head: Vec::new(),
    }
}

#[test]
fn build_file_menu_lists_entries() {
    let tmp = BootPath::from_text("/tmp/dir");
    let listing = vec![dir("subdir"), file("file.txt", b"hello")];

    let (menu, entries) = build_file_menu(&tmp, Ok(listing)).unwrap();
    assert_eq!(entries.len(), 2);
    assert_eq!(menu.items.len(), 2);

    // Sorted: file.txt before subdir
    assert_eq!(entries[0].name, "file.txt");
    assert!(!entries[0].is_dir);
    assert_eq!(entries[1].name, "subdir");
    assert!(entries[1].is_dir);

    // Dir entry has trailing slash in label
    assert_eq!(menu.items[1].label, "subdir/");
    assert_eq!(menu.items[0].label, "file.txt");
}

#[test]
fn build_file_menu_empty_dir() {
    let tmp = BootPath::from_text("/tmp/dir");
    let (menu, entries) = build_file_menu(&tmp, Ok(Vec::new())).unwrap();
    assert!(entries.is_empty());
    assert!(menu.is_empty());
}

#[test]
fn file_browser_enter_on_dir_opens() {
    let entries = vec![DirEntry {
        name: "subdir".into(),
        is_dir: true,
        is_leaf: false,
        is_bootable: false,
        path: BootPath::from_text("/mnt/subdir"),
    }];
    let items = vec![MenuItem {
        label: "subdir/".into(),
        detail: String::new(),
        state: ItemState::Normal,
    }];
    let mut menu = Menu::new(items, None);
    let root = BootPath::from_text("/mnt");
    let current = BootPath::from_text("/mnt");
    let action = handle_file_browser_key(&mut menu, &entries, &current, &root, &Key::Enter);
    assert!(matches!(action, Action::OpenDir(0)));
}

#[test]
fn file_browser_enter_on_file_noop() {
    let entries = vec![DirEntry {
        name: "file.txt".into(),
        is_dir: false,
        is_leaf: false,
        is_bootable: false,
        path: BootPath::from_text("/mnt/file.txt"),
    }];
    let items = vec![MenuItem {
        label: "file.txt".into(),
        detail: String::new(),
        state: ItemState::Normal,
    }];
    let mut menu = Menu::new(items, None);
    let root = BootPath::from_text("/mnt");
    let current = BootPath::from_text("/mnt");
    let action = handle_file_browser_key(&mut menu, &entries, &current, &root, &Key::Enter);
    assert!(matches!(action, Action::Ignored));
}

#[test]
fn file_browser_escape_at_root_goes_back() {
    let entries = vec![];
    let mut menu = Menu::new(vec![], None);
    let root = BootPath::from_text("/mnt");
    let current = BootPath::from_text("/mnt");
    let action = handle_file_browser_key(&mut menu, &entries, &current, &root, &Key::Escape);
    assert!(matches!(action, Action::Back));
}

#[test]
fn file_browser_escape_in_subdir_goes_up() {
    let entries = vec![];
    let mut menu = Menu::new(vec![], None);
    let root = BootPath::from_text("/mnt");
    let current = BootPath::from_text("/mnt/subdir");
    let action = handle_file_browser_key(&mut menu, &entries, &current, &root, &Key::Escape);
    assert!(matches!(action, Action::DirUp));
}

#[test]
fn file_browser_b_at_root_goes_back() {
    let entries = vec![];
    let mut menu = Menu::new(vec![], None);
    let root = BootPath::from_text("/mnt");
    let current = BootPath::from_text("/mnt");
    let action = handle_file_browser_key(&mut menu, &entries, &current, &root, &Key::Char('b'));
    assert!(matches!(action, Action::Back));
}

#[test]
fn render_file_browser_output() {
    let mut output = String::new();
    let items = vec![MenuItem {
        label: "subdir/".into(),
        detail: String::new(),
        state: ItemState::Normal,
    }];
    let menu = Menu::new(items, None);
    let root = BootPath::from_text("/mnt");
    let current = BootPath::from_text("/mnt/boot");
    render_file_browser(&mut output, "my-disk", &current, &root, &menu);
    assert!(output.contains("kexec-menu"));
    assert!(output.contains("my-disk [fs]"));
    assert!(output.contains("/boot"));
    assert!(output.contains("subdir/"));
    assert!(output.contains("boot tree"));
}

#[test]
fn render_file_browser_at_root() {
    let mut output = String::new();
    let menu = Menu::new(vec![], None);
    let root = BootPath::from_text("/mnt");
    render_file_browser(&mut output, "disk", &root, &root, &menu);
    assert!(output.contains("/"));
}

// --- Bootable file detection tests ---

#[test]
fn detect_pe_binary() {
    let mut data = vec![0u8; 64];
    data[0] = 0x4D; // 'M'
    data[1] = 0x5A; // 'Z'
    assert!(is_bootable_file(&data));
}

#[test]
fn detect_bzimage() {
    let mut data = vec![0u8; 0x206];
    data[0x202] = b'H';
    data[0x203] = b'd';
    data[0x204] = b'r';
    data[0x205] = b'S';
    assert!(is_bootable_file(&data));
}

#[test]
fn detect_non_bootable() {
    assert!(!is_bootable_file(b"hello world"));
}

#[test]
fn detect_empty_file() {
    assert!(!is_bootable_file(b""));
}

#[test]
fn detect_too_small_for_bzimage() {
    assert!(!is_bootable_file(&[0u8; 100]));
}

#[test]
fn detect_nonexistent_file() {
    // Nothing can be read of a file that is not there.
    assert!(!is_bootable_file(b""));
}

#[test]
fn file_browser_enter_on_bootable_boots() {
    let entries = vec![DirEntry {
        name: "vmlinuz".into(),
        is_dir: false,
        is_leaf: false,
        is_bootable: true,
        path: BootPath::from_text("/mnt/boot/vmlinuz"),
    }];
    let items = vec![MenuItem {
        label: "vmlinuz".into(),
        detail: "[bootable]".into(),
        state: ItemState::Normal,
    }];
    let mut menu = Menu::new(items, None);
    let root = BootPath::from_text("/mnt");
    let current = BootPath::from_text("/mnt/boot");
    let action = handle_file_browser_key(&mut menu, &entries, &current, &root, &Key::Enter);
    match action {
        Action::BootFile { path } => assert_eq!(path, BootPath::from_text("/mnt/boot/vmlinuz")),
        _ => panic!("expected BootFile action"),
    }
}

#[test]
fn build_file_menu_marks_bootable() {
    let tmp = BootPath::from_text("/tmp/dir");
    let mut pe_data = vec![0u8; 64];
    pe_data[0] = 0x4D;
    pe_data[1] = 0x5A;
    let listing = vec![file("kernel.efi", &pe_data), file("readme.txt", b"hello")];

    let (_menu, entries) = build_file_menu(&tmp, Ok(listing)).unwrap();
    let efi = entries.iter().find(|e| e.name == "kernel.efi").unwrap();
    let txt = entries.iter().find(|e| e.name == "readme.txt").unwrap();
    assert!(efi.is_bootable);
    assert!(!txt.is_bootable);
}

#[test]
fn tree_key_f_opens_file_browser() {
    let nodes = vec![FlatNode {
        depth: 0,
        kind: FlatNodeKind::Leaf {
            name: "gen1".into(),
            entry_count: 1,
            path: BootPath::from_text("/boot/gen1"),
        },
    }];
    let items = vec![MenuItem {
        label: "gen1".into(),
        detail: "1 entries".into(),
        state: ItemState::Normal,
    }];
    let mut menu = Menu::new(items, None);
    let action = handle_tree_key(&mut menu, &nodes, &Key::Char('f'));
    assert!(matches!(action, Action::OpenFileBrowser));
}

// --- Arrow key parsing tests ---

#[test]
fn parse_arrow_left() {
    let input: &[u8] = b"\x1b[D";
    assert_eq!(read_key(input).unwrap().0, Key::Left);
}

#[test]
fn parse_arrow_right() {
    let input: &[u8] = b"\x1b[C";
    assert_eq!(read_key(input).unwrap().0, Key::Right);
}

// --- TreeView tests ---

fn test_sources() -> Vec<Source> {
    vec![Source {
        label: "nvme0n1p2 (bcachefs)".into(),
        device: BootPath::from_text("/dev/nvme0n1p2"),
        state: SourceState::Mounted,
        mount_point: Some(BootPath::from_text("/mnt/boot")),
        passphrase: None,
    }]
}

fn test_tree() -> Vec<(String, Vec<TreeNode>)> {
    vec![("nvme0n1p2".into(), vec![
        TreeNode::Dir {
            name: "nixos".into(),
            children: vec![
                leaf_node("/boot/nixos/gen2", &["NixOS default", "NixOS fallback"]),
                leaf_node("/boot/nixos/gen1", &["NixOS default"]),
            ],
        },
    ])]
}

fn test_default() -> BootSelection {
    BootSelection {
        leaf_path: BootPath::from_text("/boot/nixos/gen2"),
        entry_name: "NixOS default".into(),
    }
}

#[test]
fn tree_view_build_basic() {
    let sources = test_sources();
    let trees = test_tree();
    let default = test_default();
    let view = TreeView::build(&sources, &trees, Some(&default));

    // Source + Dir(nixos) + Leaf(gen2) + 2 entries + Leaf(gen1) + 1 entry = 7
    assert_eq!(view.nodes.len(), 7);
    assert!(matches!(view.nodes[0].kind, NodeKind::Source { .. }));
    assert!(matches!(view.nodes[1].kind, NodeKind::Dir { .. }));
    assert!(matches!(view.nodes[2].kind, NodeKind::Leaf { .. }));
    assert!(matches!(view.nodes[3].kind, NodeKind::Entry { .. }));
    assert!(matches!(view.nodes[4].kind, NodeKind::Entry { .. }));
    assert!(matches!(view.nodes[5].kind, NodeKind::Leaf { .. }));
    assert!(matches!(view.nodes[6].kind, NodeKind::Entry { .. }));
}

#[test]
fn tree_view_default_expanded() {
    let sources = test_sources();
    let trees = test_tree();
    let default = test_default();
    let view = TreeView::build(&sources, &trees, Some(&default));

    // Source expanded (contains default)
    assert!(view.nodes[0].expanded);
    // Dir "nixos" expanded (contains default leaf)
    assert!(view.nodes[1].expanded);
    // Leaf gen2 expanded (is default leaf)
    assert!(view.nodes[2].expanded);
    // Leaf gen1 collapsed (not default)
    assert!(!view.nodes[5].expanded);
}

#[test]
fn tree_view_cursor_on_default_entry() {
    let sources = test_sources();
    let trees = test_tree();
    let default = test_default();
    let view = TreeView::build(&sources, &trees, Some(&default));

    // Cursor should be on the default entry (index 3: "NixOS default" under gen2)
    assert_eq!(view.cursor, 3);
    assert!(view.nodes[3].is_default);
}

#[test]
fn tree_view_visibility() {
    let sources = test_sources();
    let trees = test_tree();
    let default = test_default();
    let view = TreeView::build(&sources, &trees, Some(&default));

    // Source, Dir, Leaf(gen2), Entry, Entry all visible (default path expanded)
    assert!(view.nodes[0].visible); // source
    assert!(view.nodes[1].visible); // nixos/
    assert!(view.nodes[2].visible); // gen2
    assert!(view.nodes[3].visible); // entry default
    assert!(view.nodes[4].visible); // entry fallback
    // gen1 visible (sibling of gen2, parent is expanded)
    assert!(view.nodes[5].visible);
    // gen1's entry hidden (gen1 is collapsed)
    assert!(!view.nodes[6].visible);
}

#[test]
fn tree_view_move_down_skips_invisible() {
    let sources = test_sources();
    let trees = test_tree();
    let default = test_default();
    let mut view = TreeView::build(&sources, &trees, Some(&default));

    // Cursor at index 3 (default entry)
    assert_eq!(view.cursor, 3);
    view.move_down(); // -> index 4 (fallback entry)
    assert_eq!(view.cursor, 4);
    view.move_down(); // -> index 5 (gen1, visible), skipping nothing
    assert_eq!(view.cursor, 5);
    view.move_down(); // -> should NOT move (gen1's entry is invisible, nothing after)
    assert_eq!(view.cursor, 5);
}

#[test]
fn tree_view_move_up() {
    let sources = test_sources();
    let trees = test_tree();
    let default = test_default();
    let mut view = TreeView::build(&sources, &trees, Some(&default));

    // Start at cursor 3
    view.move_up(); // -> 2 (gen2 leaf)
    assert_eq!(view.cursor, 2);
    view.move_up(); // -> 1 (nixos dir)
    assert_eq!(view.cursor, 1);
    view.move_up(); // -> 0 (source)
    assert_eq!(view.cursor, 0);
    view.move_up(); // stays at 0
    assert_eq!(view.cursor, 0);
}

#[test]
fn tree_view_toggle_collapse() {
    let sources = test_sources();
    let trees = test_tree();
    let default = test_default();
    let mut view = TreeView::build(&sources, &trees, Some(&default));

    // Move cursor to nixos dir (index 1), collapse it
    view.cursor = 1;
    assert!(view.nodes[1].expanded);
    let changed = view.toggle();
    assert!(changed);
    assert!(!view.nodes[1].expanded);

    // Children should now be invisible
    assert!(!view.nodes[2].visible); // gen2
    assert!(!view.nodes[3].visible); // entry
    assert!(!view.nodes[4].visible); // entry
    assert!(!view.nodes[5].visible); // gen1
    assert!(!view.nodes[6].visible); // entry
}

#[test]
fn tree_view_toggle_expand() {
    let sources = test_sources();
    let trees = test_tree();
    let default = test_default();
    let mut view = TreeView::build(&sources, &trees, Some(&default));

    // gen1 is collapsed, move cursor there and expand
    view.cursor = 5;
    assert!(!view.nodes[5].expanded);
    view.toggle();
    assert!(view.nodes[5].expanded);
    // gen1's entry should now be visible
    assert!(view.nodes[6].visible);
}

#[test]
fn tree_view_collapse_moves_cursor_to_parent() {
    let sources = test_sources();
    let trees = test_tree();
    let default = test_default();
    let mut view = TreeView::build(&sources, &trees, Some(&default));

    // Cursor on default entry (3), collapse should go to parent leaf (2)
    assert_eq!(view.cursor, 3);
    let changed = view.collapse();
    assert!(changed);
    assert_eq!(view.cursor, 2);
}

#[test]
fn tree_view_collapse_already_collapsed_goes_to_parent() {
    let sources = test_sources();
    let trees = test_tree();
    let default = test_default();
    let mut view = TreeView::build(&sources, &trees, Some(&default));

    // gen1 is collapsed, cursor there, collapse should go to parent dir
    view.cursor = 5;
    assert!(!view.nodes[5].expanded);
    let changed = view.collapse();
    assert!(changed);
    assert_eq!(view.cursor, 1); // nixos dir
}

#[test]
fn tree_view_expand_already_expanded_noop() {
    let sources = test_sources();
    let trees = test_tree();
    let default = test_default();
    let mut view = TreeView::build(&sources, &trees, Some(&default));

    view.cursor = 1; // nixos dir, already expanded
    let changed = view.expand();
    assert!(!changed);
}

#[test]
fn tree_view_toggle_entry_noop() {
    let sources = test_sources();
    let trees = test_tree();
    let default = test_default();
    let mut view = TreeView::build(&sources, &trees, Some(&default));

    // Entries can't be toggled
    view.cursor = 3;
    let changed = view.toggle();
    assert!(!changed);
}

#[test]
fn tree_view_no_default() {
    let sources = test_sources();
    let trees = test_tree();
    let view = TreeView::build(&sources, &trees, None);

    // Without default, source should be collapsed
    assert!(!view.nodes[0].expanded);
    // Cursor at 0
    assert_eq!(view.cursor, 0);
    // Only source visible
    assert_eq!(view.visible_count(), 1);
}

#[test]
fn tree_view_encrypted_source() {
    let sources = vec![Source {
        label: "sda1 (luks)".into(),
        device: BootPath::from_text("/dev/sda1"),
        state: SourceState::Encrypted,
        mount_point: None,
        passphrase: None,
    }];
    let trees = vec![("sda1".into(), Vec::new())];
    let view = TreeView::build(&sources, &trees, None);

    assert_eq!(view.nodes.len(), 1);
    assert!(matches!(
        &view.nodes[0].kind,
        NodeKind::Source { state: NodeSourceState::Encrypted, .. }
    ));
    // Can't toggle encrypted source
    let mut view = view;
    let changed = view.toggle();
    assert!(!changed);
}

#[test]
fn tree_view_multiple_sources() {
    let sources = vec![
        Source {
            label: "nvme0n1p2".into(),
            device: BootPath::from_text("/dev/nvme0n1p2"),
            state: SourceState::Mounted,
            mount_point: Some(BootPath::from_text("/mnt/a")),
            passphrase: None,
        },
        Source {
            label: "sda1".into(),
            device: BootPath::from_text("/dev/sda1"),
            state: SourceState::Mounted,
            mount_point: Some(BootPath::from_text("/mnt/b")),
            passphrase: None,
        },
    ];
    let trees = vec![
        ("nvme0n1p2".into(), vec![leaf_node("/boot/a/gen1", &["entry1"])]),
        ("sda1".into(), vec![leaf_node("/boot/b/gen1", &["entry2"])]),
    ];
    let default = BootSelection {
        leaf_path: BootPath::from_text("/boot/b/gen1"),
        entry_name: "entry2".into(),
    };
    let view = TreeView::build(&sources, &trees, Some(&default));

    // First source collapsed, second expanded
    assert!(!view.nodes[0].expanded);
    // Find second source
    let src2_idx = view.nodes.iter().position(|n| {
        matches!(&n.kind, NodeKind::Source { idx: 1, .. })
    }).unwrap();
    assert!(view.nodes[src2_idx].expanded);
}

#[test]
fn tree_view_cursor_source_idx() {
    let sources = test_sources();
    let trees = test_tree();
    let default = test_default();
    let view = TreeView::build(&sources, &trees, Some(&default));

    // Cursor on entry under source 0
    assert_eq!(view.cursor_source_idx(), Some(0));
}

#[test]
fn tree_view_collapse_source_hides_all() {
    let sources = test_sources();
    let trees = test_tree();
    let default = test_default();
    let mut view = TreeView::build(&sources, &trees, Some(&default));

    // Collapse the source
    view.cursor = 0;
    view.toggle();
    assert_eq!(view.visible_count(), 1); // only the source itself
}

#[test]
fn tree_view_empty_source_not_expandable() {
    let sources = vec![Source {
        label: "empty-disk".into(),
        device: BootPath::from_text("/dev/sdc1"),
        state: SourceState::Mounted,
        mount_point: Some(BootPath::from_text("/mnt/empty")),
        passphrase: None,
    }];
    let trees = vec![("empty-disk".into(), Vec::new())];
    let view = TreeView::build(&sources, &trees, None);

    assert_eq!(view.nodes.len(), 1);
    assert!(matches!(
        &view.nodes[0].kind,
        NodeKind::Source { state: NodeSourceState::Empty, .. }
    ));
    let mut view = view;
    let changed = view.toggle();
    assert!(!changed);
}

#[test]
fn tree_view_left_at_top_level_noop() {
    let sources = test_sources();
    let trees = test_tree();
    let mut view = TreeView::build(&sources, &trees, None);

    // Source at depth 0, collapsed — left should do nothing
    view.cursor = 0;
    let changed = view.collapse();
    assert!(!changed);
}
