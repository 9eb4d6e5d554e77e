//! The JSON files: errors, escapes, and what is read back.

use kexec_menu::tree::{
    load_static_entries, parse_entries, parse_static_config, walk_boot_tree, DirContent, DirItem,
};
use kexec_menu::path::BootPath;
use kexec_menu::types::{Error, IoFailure, SourceState, TreeNode};

const FULL: &str = r#"{"name":"n","kernel":"k","initrd":"i","cmdline":"c"}"#;

fn complaint(json: &str) -> String {
    match parse_entries(json) {
        Err(Error::Parse(m)) => m,
        other => panic!("{other:?}"),
    }
}

fn static_complaint(json: &str) -> String {
    match parse_static_config(json) {
        Err(Error::Parse(m)) => m,
        other => panic!("{other:?}"),
    }
}

fn failure(code: i32, message: &str) -> IoFailure {
    IoFailure { code: Some(code), message: message.into() }
}

#[test]
fn complaints_about_the_array() {
    assert_eq!(complaint(""), "expected '[', got end of input");
    assert_eq!(complaint("  {"), "expected '[', got '{'");
    assert_eq!(complaint("["), "expected '{', got end of input");
    assert_eq!(complaint("[1]"), "expected '{', got '1'");
    assert_eq!(complaint(&format!("[{FULL} x")), "expected ',' or ']', got 'x'");
    assert_eq!(complaint(&format!("[{FULL}")), "unexpected end of input");
    assert_eq!(complaint(&format!("[{FULL},]")), "expected '{', got ']'");
}

#[test]
fn complaints_about_an_object() {
    assert_eq!(complaint("[{}]"), "empty entry object");
    assert_eq!(complaint(r#"[{"x":"y"}]"#), "unknown field: x");
    assert_eq!(complaint(r#"[{"name" "y"}]"#), "expected ':', got '\"'");
    assert_eq!(complaint(r#"[{"name":1}]"#), "expected '\"', got '1'");
    assert_eq!(complaint(r#"[{"name":"y";"#), "expected ',' or '}', got ';'");
    assert_eq!(complaint(r#"[{"name":"y""#), "unexpected end of input in object");
    assert_eq!(complaint(r#"[{"name":"y",}"#), "expected '\"', got '}'");
}

#[test]
fn missing_fields_are_named_in_order() {
    assert_eq!(complaint(r#"[{"kernel":"k"}]"#), "missing field: name");
    assert_eq!(complaint(r#"[{"name":"n"}]"#), "missing field: kernel");
    assert_eq!(complaint(r#"[{"name":"n","kernel":"k"}]"#), "missing field: initrd");
    assert_eq!(complaint(r#"[{"name":"n","kernel":"k","initrd":"i"}]"#), "missing field: cmdline");
}

#[test]
fn complaints_about_a_string() {
    assert_eq!(complaint(r#"[{"na"#), "unterminated string");
    assert_eq!(complaint(r#"[{"na\"#), "unterminated escape");
    assert_eq!(complaint(r#"[{"na\u"#), "invalid escape: \\u");
}

#[test]
fn complaints_about_static_entries() {
    assert_eq!(static_complaint("[{}]"), "empty static entry object");
    assert_eq!(static_complaint(r#"[{"x":"y"}]"#), "unknown field in static entry: x");
    assert_eq!(static_complaint(&format!("[{FULL}]")), "missing field: dir");
    assert_eq!(static_complaint(r#"[{"dir":"d"}]"#), "missing field: name");
}

#[test]
fn escapes_are_resolved() {
    let json = r#"[{"name":"\"\\\/\n\t\r","kernel":"","initrd":"","cmdline":""}]"#;
    assert_eq!(parse_entries(json).unwrap()[0].name, "\"\\/\n\t\r");
}

#[test]
fn text_beyond_ascii_is_read_as_it_stands() {
    let json = r#"[{"name":"é","kernel":"↑×","initrd":"😀","cmdline":"日本"}]"#;
    let e = parse_entries(json).unwrap();
    assert_eq!((e[0].name.as_str(), e[0].kernel.as_str()), ("é", "↑×"));
    assert_eq!((e[0].initrd.as_str(), e[0].cmdline.as_str()), ("😀", "日本"));
    assert_eq!(complaint("é"), "expected '[', got 'é'");
    assert_eq!(complaint(r#"[{"a\é"#), "invalid escape: \\é");
}

#[test]
fn any_way_of_writing_is_read_back() {
    let ways = [
        r#"[{"name":"a/b","kernel":"k","initrd":"x","cmdline":"say \"hi\""}]"#,
        "\t[\r\n{ \"cmdline\"\t:\n\"say \\\"hi\\\"\" , \"initrd\":\"x\",\"name\" : \"a\\/b\",\"kernel\":\"k\" } ] ",
        r#"[{"kernel":"k","kernel":"k","initrd":"x","name":"a/b","cmdline":"say \"hi\""}]["#,
    ];
    for json in ways {
        let e = parse_entries(json).unwrap();
        assert_eq!(e.len(), 1);
        assert_eq!((e[0].name.as_str(), e[0].kernel.as_str()), ("a/b", "k"));
        assert_eq!((e[0].initrd.as_str(), e[0].cmdline.as_str()), ("x", "say \"hi\""));
    }
    assert!(parse_entries(" [\n] ").unwrap().is_empty());
    let escaped = r#"[{"n\/ame":"","kernel":"","initrd":"","cmdline":""}]"#;
    assert_eq!(complaint(escaped), "unknown field: n/ame");
}

#[test]
fn later_fields_win_and_order_is_free() {
    let json = r#" [ { "cmdline" : "c" , "name" : "a" , "initrd":"i","kernel":"k","name":"b" } ] tail"#;
    let entries = parse_entries(json).unwrap();
    assert_eq!(entries.len(), 1);
    assert_eq!((entries[0].name.as_str(), entries[0].cmdline.as_str()), ("b", "c"));
}

#[test]
fn written_entries_are_read_back() {
    let json = format!(r#"[{FULL},{{"name":"a b","kernel":"bzImage","initrd":"","cmdline":"quiet \"x\""}}]"#);
    let e = parse_entries(&json).unwrap();
    assert_eq!(e.len(), 2);
    assert_eq!((e[0].name.as_str(), e[0].kernel.as_str()), ("n", "k"));
    assert_eq!((e[0].initrd.as_str(), e[0].cmdline.as_str()), ("i", "c"));
    assert_eq!((e[1].name.as_str(), e[1].kernel.as_str()), ("a b", "bzImage"));
    assert_eq!((e[1].initrd.as_str(), e[1].cmdline.as_str()), ("", "quiet \"x\""));
}

#[test]
fn written_static_entries_are_read_back() {
    let json = r#"[{"name":"Memtest86+","dir":"/static/memtest","kernel":"memtest.bin","initrd":"","cmdline":""}]"#;
    let loaded = load_static_entries(&Ok(Some(json.into()))).unwrap();
    let (source, label, tree) = &loaded[0];
    assert_eq!(label, "Memtest86+");
    assert_eq!((source.label.as_str(), source.device.to_text().as_str()), ("Memtest86+", "/static/memtest"));
    assert!(matches!(source.state, SourceState::Static));
    assert!(source.mount_point.is_none() && source.passphrase.is_none());
    match &tree[0] {
        TreeNode::Leaf(leaf) => {
            assert_eq!((leaf.path.to_text().as_str(), leaf.mtime), ("/static/memtest", 0));
            assert_eq!(leaf.entries[0].kernel, "memtest.bin");
        }
        other => panic!("{other:?}"),
    }
}

#[test]
fn unreadable_static_file_is_an_error() {
    match load_static_entries(&Err(failure(13, "denied"))) {
        Err(Error::Io(f)) => assert_eq!((f.code, f.message.as_str()), (Some(13), "denied")),
        other => panic!("{other:?}"),
    }
}

fn leaf_item(name: &[u8], json: Result<String, IoFailure>, mtime: Result<u64, IoFailure>) -> DirItem {
    DirItem { name: name.to_vec(), content: DirContent::Leaf { json, mtime } }
}

fn walked(items: Vec<DirItem>) -> Result<Vec<TreeNode>, Error> {
    walk_boot_tree(&BootPath::from_text("/b"), &Ok(items))
}

#[test]
fn first_failure_in_name_order_ends_the_walk() {
    let items = vec![
        leaf_item(b"z", Err(failure(5, "late")), Ok(1)),
        leaf_item(b"a", Ok("nonsense".into()), Ok(1)),
    ];
    match walked(items) {
        Err(Error::Parse(m)) => assert_eq!(m, "expected '[', got 'n'"),
        other => panic!("{other:?}"),
    }
    let items = vec![
        DirItem { name: b"m".to_vec(), content: DirContent::Dir { listing: Err(failure(2, "gone")) } },
        leaf_item(b"n", Ok("[]".into()), Err(failure(5, "time"))),
    ];
    match walked(items) {
        Err(Error::Io(f)) => assert_eq!(f.message, "gone"),
        other => panic!("{other:?}"),
    }
    match walked(vec![leaf_item(b"n", Ok("[]".into()), Err(failure(5, "time")))]) {
        Err(Error::Io(f)) => assert_eq!(f.message, "time"),
        other => panic!("{other:?}"),
    }
    match walk_boot_tree(&BootPath::from_text("/b"), &Err(failure(13, "root"))) {
        Err(Error::Io(f)) => assert_eq!(f.message, "root"),
        other => panic!("{other:?}"),
    }
}

#[test]
fn nodes_stand_in_name_order_with_their_paths() {
    let deep = vec![leaf_item(b"x", Ok("[]".into()), Ok(9))];
    let items = vec![
        DirItem { name: b"b".to_vec(), content: DirContent::Dir { listing: Ok(deep) } },
        leaf_item(b"a\xff", Ok(format!("[{FULL}]")), Ok(7)),
        DirItem { name: b"c".to_vec(), content: DirContent::Dir { listing: Ok(vec![]) } },
        DirItem { name: b"0".to_vec(), content: DirContent::File },
    ];
    let nodes = walked(items).unwrap();
    assert_eq!(nodes.len(), 2);
    match (&nodes[0], &nodes[1]) {
        (TreeNode::Leaf(leaf), TreeNode::Dir { name, children }) => {
            assert_eq!((leaf.path.bytes.as_slice(), leaf.mtime), (&b"/b/a\xff"[..], 7));
            assert_eq!((name.as_str(), children.len()), ("b", 1));
            match &children[0] {
                TreeNode::Leaf(leaf) => assert_eq!(leaf.path.to_text(), "/b/b/x"),
                other => panic!("{other:?}"),
            }
        }
        other => panic!("{other:?}"),
    }
}
