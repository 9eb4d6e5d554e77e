//! Boot entries, boot trees and static entries.

use kexec_menu::path::BootPath;
use kexec_menu::tree::{
    load_static_entries, parse_entries, parse_static_config, walk_boot_tree, DirContent, DirItem,
};
use kexec_menu::types::{Error, SourceState, TreeNode};


// --- JSON parsing tests ---

#[test]
fn parse_single_entry() {
    let json = r#"[{"name":"default","kernel":"vmlinuz","initrd":"initrd","cmdline":"root=/dev/sda1"}]"#;
    let entries = parse_entries(json).unwrap();
    assert_eq!(entries.len(), 1);
    assert_eq!(entries[0].name, "default");
    assert_eq!(entries[0].kernel, "vmlinuz");
    assert_eq!(entries[0].initrd, "initrd");
    assert_eq!(entries[0].cmdline, "root=/dev/sda1");
}

#[test]
fn parse_multiple_entries() {
    let json = r#"[
        {"name": "default", "kernel": "vmlinuz", "initrd": "initrd-default", "cmdline": "root=/dev/sda1"},
        {"name": "gaming",  "kernel": "vmlinuz", "initrd": "initrd-gaming",  "cmdline": "root=/dev/sda1 mitigations=off"}
    ]"#;
    let entries = parse_entries(json).unwrap();
    assert_eq!(entries.len(), 2);
    assert_eq!(entries[0].name, "default");
    assert_eq!(entries[1].name, "gaming");
    assert_eq!(entries[1].cmdline, "root=/dev/sda1 mitigations=off");
}

#[test]
fn parse_empty_array() {
    let entries = parse_entries("[]").unwrap();
    assert!(entries.is_empty());
}

#[test]
fn parse_escaped_strings() {
    let json = r#"[{"name": "with\"quote", "kernel": "vmlinuz", "initrd": "initrd", "cmdline": "a\\b"}]"#;
    let entries = parse_entries(json).unwrap();
    assert_eq!(entries[0].name, "with\"quote");
    assert_eq!(entries[0].cmdline, "a\\b");
}

#[test]
fn parse_missing_field() {
    let json = r#"[{"name": "x", "kernel": "k", "initrd": "i"}]"#;
    let err = parse_entries(json).unwrap_err();
    assert!(matches!(err, Error::Parse(ref s) if s.contains("cmdline")));
}

#[test]
fn parse_unknown_field() {
    let json = r#"[{"name":"x","kernel":"k","initrd":"i","cmdline":"c","extra":"bad"}]"#;
    let err = parse_entries(json).unwrap_err();
    assert!(matches!(err, Error::Parse(ref s) if s.contains("unknown")));
}

#[test]
fn parse_empty_object() {
    let json = r#"[{}]"#;
    let err = parse_entries(json).unwrap_err();
    assert!(matches!(err, Error::Parse(_)));
}

#[test]
fn parse_not_array() {
    let json = r#"{"name":"x"}"#;
    let err = parse_entries(json).unwrap_err();
    assert!(matches!(err, Error::Parse(_)));
}

#[test]
fn parse_unterminated_string() {
    let json = r#"[{"name": "unterminated}]"#;
    let err = parse_entries(json).unwrap_err();
    assert!(matches!(err, Error::Parse(_)));
}

// --- Tree walking tests ---

fn leaf(name: &str, entries_json: &str) -> DirItem {
    DirItem {
        name: name.as_bytes().to_vec(),
        content: DirContent::Leaf { json: Ok(entries_json.to_string()), mtime: Ok(100) },
    }
}

fn dir(name: &str, items: Vec<DirItem>) -> DirItem {
    DirItem { name: name.as_bytes().to_vec(), content: DirContent::Dir { listing: Ok(items) } }
}

fn file(name: &str) -> DirItem {
    DirItem { name: name.as_bytes().to_vec(), content: DirContent::File }
}

fn walk(items: Vec<DirItem>) -> Result<Vec<TreeNode>, Error> {
    walk_boot_tree(&BootPath::from_text("/mnt/boot"), &Ok(items))
}

fn entry_json(name: &str) -> String {
    format!(
        r#"[{{"name":"{name}","kernel":"vmlinuz","initrd":"initrd","cmdline":"root=/dev/sda1"}}]"#
    )
}

#[test]
fn walk_single_leaf() {
    let tree = walk(vec![leaf("gen1", &entry_json("default"))]).unwrap();
    assert_eq!(tree.len(), 1);
    match &tree[0] {
        TreeNode::Leaf(leaf) => {
            assert_eq!(leaf.entries[0].name, "default");
        }
        _ => panic!("expected leaf"),
    }
}

#[test]
fn walk_nested_tree() {
    // boot/nixos/gen1 (leaf)
    // boot/nixos/gen2 (leaf)
    // boot/other/gen1 (leaf)
    let tree = walk(vec![
        dir("nixos", vec![
            leaf("gen1", &entry_json("default")),
            leaf("gen2", &entry_json("default")),
        ]),
        dir("other", vec![leaf("gen1", &entry_json("other"))]),
    ])
    .unwrap();
    assert_eq!(tree.len(), 2); // nixos, other
    match &tree[0] {
        TreeNode::Dir { name, children } => {
            assert_eq!(name, "nixos");
            assert_eq!(children.len(), 2);
        }
        _ => panic!("expected dir"),
    }
}

#[test]
fn walk_empty_dirs_omitted() {
    let tree = walk(vec![
        dir("empty", Vec::new()),
        dir("real", vec![leaf("gen1", &entry_json("x"))]),
    ])
    .unwrap();
    assert_eq!(tree.len(), 1);
    match &tree[0] {
        TreeNode::Dir { name, .. } => assert_eq!(name, "real"),
        _ => panic!("expected dir"),
    }
}

#[test]
fn walk_files_ignored() {
    let tree = walk(vec![file("random.txt"), leaf("gen1", &entry_json("x"))]).unwrap();
    assert_eq!(tree.len(), 1);
}

#[test]
fn walk_sorted_by_name() {
    let tree = walk(vec![
        leaf("charlie", &entry_json("c")),
        leaf("alpha", &entry_json("a")),
        leaf("bravo", &entry_json("b")),
    ])
    .unwrap();
    let names: Vec<&str> = tree.iter().map(|n| match n {
        TreeNode::Leaf(l) => l.entries[0].name.as_str(),
        _ => unreachable!(),
    }).collect();
    assert_eq!(names, vec!["a", "b", "c"]);
}

// --- Static entry config parsing tests ---

#[test]
fn parse_static_single_entry() {
    let json = r#"[{"name":"Memtest86+","dir":"/static/memtest","kernel":"memtest.bin","initrd":"","cmdline":""}]"#;
    let configs = parse_static_config(json).unwrap();
    assert_eq!(configs.len(), 1);
    assert_eq!(configs[0].name, "Memtest86+");
    assert_eq!(configs[0].dir, "/static/memtest");
    assert_eq!(configs[0].kernel, "memtest.bin");
}

#[test]
fn parse_static_multiple_entries() {
    let json = r#"[
        {"name": "Memtest86+", "dir": "/static/memtest", "kernel": "memtest.bin", "initrd": "", "cmdline": ""},
        {"name": "netboot.xyz", "dir": "/static/netboot", "kernel": "netboot.efi", "initrd": "", "cmdline": ""}
    ]"#;
    let configs = parse_static_config(json).unwrap();
    assert_eq!(configs.len(), 2);
    assert_eq!(configs[0].name, "Memtest86+");
    assert_eq!(configs[1].name, "netboot.xyz");
}

#[test]
fn parse_static_empty_array() {
    let configs = parse_static_config("[]").unwrap();
    assert!(configs.is_empty());
}

#[test]
fn parse_static_missing_field() {
    let json = r#"[{"name": "x", "dir": "/d", "kernel": "k"}]"#;
    let err = parse_static_config(json).unwrap_err();
    assert!(matches!(err, Error::Parse(_)));
}

#[test]
fn parse_static_unknown_field() {
    let json = r#"[{"name":"x","dir":"/d","kernel":"k","initrd":"i","cmdline":"c","extra":"bad"}]"#;
    let err = parse_static_config(json).unwrap_err();
    assert!(matches!(err, Error::Parse(ref s) if s.contains("unknown")));
}

// --- Static entry loading tests ---

#[test]
fn load_static_entries_missing_file() {
    let result = load_static_entries(&Ok(None)).unwrap();
    assert!(result.is_empty());
}

#[test]
fn load_static_entries_from_file() {
    let config = Ok(Some(r#"[{"name":"Memtest","dir":"/static/mt","kernel":"mt.bin","initrd":"","cmdline":""}]"#.to_string()));
    let result = load_static_entries(&config).unwrap();
    assert_eq!(result.len(), 1);
    let (src, label, tree) = &result[0];
    assert_eq!(src.label, "Memtest");
    assert_eq!(label, "Memtest");
    assert!(matches!(src.state, SourceState::Static));
    assert!(src.mount_point.is_none());
    assert_eq!(tree.len(), 1);
    match &tree[0] {
        TreeNode::Leaf(leaf) => {
            assert_eq!(leaf.path, BootPath::from_text("/static/mt"));
            assert_eq!(leaf.entries.len(), 1);
            assert_eq!(leaf.entries[0].name, "Memtest");
            assert_eq!(leaf.entries[0].kernel, "mt.bin");
        }
        _ => panic!("expected leaf"),
    }
}

#[test]
fn load_static_entries_empty_config() {
    let config = Ok(Some("[]".to_string()));
    let result = load_static_entries(&config).unwrap();
    assert!(result.is_empty());
}
