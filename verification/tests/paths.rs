//! Paths, held against `std::path::Path`.

use kexec_menu::path::BootPath;
use std::path::Path;

const PATHS: [&str; 24] = [
    "", "/", "//", ".", "./", "..", "/..", "a", "a/", "/a", "/a/", "a/b", "a//b", "/a/./b", "./a",
    "./a/b/.", "a/..", "/a/../b", "/mnt/boot/nixos/gen1", "/mnt/boot/nixos/gen1//", "/mnt/boot",
    "a.b/c", "a/b/c", "é/ü",
];

fn text(p: &Path) -> &str {
    p.to_str().unwrap()
}

#[test]
fn parents_are_those_of_std() {
    for s in PATHS {
        let expected = Path::new(s).parent().map(|p| text(p).to_string());
        let got = BootPath::from_text(s).parent().map(|p| p.to_text());
        assert_eq!(got, expected, "{s:?}");
    }
}

#[test]
fn file_names_are_those_of_std() {
    for s in PATHS {
        let expected = Path::new(s).file_name().map(|n| n.to_str().unwrap().as_bytes().to_vec());
        assert_eq!(BootPath::from_text(s).file_name(), expected, "{s:?}");
    }
}

#[test]
fn order_and_equality_are_those_of_std() {
    for a in PATHS {
        for b in PATHS {
            let (p, q) = (BootPath::from_text(a), BootPath::from_text(b));
            assert_eq!(p.is_same(&q), Path::new(a) == Path::new(b), "{a:?} {b:?}");
            assert_eq!(p.is_before(&q), Path::new(a) < Path::new(b), "{a:?} {b:?}");
        }
    }
}

#[test]
fn prefixes_are_stripped_as_in_std() {
    for a in PATHS {
        for b in PATHS {
            let expected = Path::new(a).strip_prefix(b).ok().map(|p| text(p).to_string());
            let got = BootPath::from_text(a)
                .strip_prefix(&BootPath::from_text(b))
                .map(|p| p.to_text());
            assert_eq!(got, expected, "{a:?} {b:?}");
        }
    }
}

#[test]
fn joins_are_those_of_std() {
    for a in PATHS {
        for b in PATHS {
            let expected = Path::new(a).join(b);
            let got = BootPath::from_text(a).join(b.as_bytes());
            assert_eq!(got.to_text(), text(&expected), "{a:?} {b:?}");
        }
    }
}

#[test]
fn joined_name_is_a_child() {
    let child = BootPath::from_text("/mnt/boot").join(b"gen1");
    assert_eq!(child.to_text(), "/mnt/boot/gen1");
    assert!(child.parent().unwrap().is_same(&BootPath::from_text("/mnt/boot/")));
    assert_eq!(child.file_name(), Some(b"gen1".to_vec()));
    assert_eq!(child.listing_name(), "gen1");
}

#[test]
fn order_is_total_and_transitive_on_samples() {
    for a in PATHS {
        for b in PATHS {
            let (p, q) = (BootPath::from_text(a), BootPath::from_text(b));
            let ways = [p.is_before(&q), q.is_before(&p), p.is_same(&q)];
            assert_eq!(ways.iter().filter(|w| **w).count(), 1, "{a:?} {b:?}");
            for c in PATHS {
                let r = BootPath::from_text(c);
                if p.is_before(&q) && q.is_before(&r) {
                    assert!(p.is_before(&r), "{a:?} {b:?} {c:?}");
                }
            }
        }
    }
}

#[test]
fn broken_text_is_replaced() {
    let p = BootPath::from_bytes(b"/boot/a\xffb");
    assert_eq!(p.to_text(), "/boot/a\u{fffd}b");
    assert_eq!(p.listing_name(), "a\u{fffd}b");
    assert_eq!(p.file_name(), Some(b"a\xffb".to_vec()));
}

#[test]
fn path_without_a_name_is_listed_whole() {
    assert_eq!(BootPath::from_text("/").listing_name(), "/");
    assert_eq!(BootPath::from_text("a/..").listing_name(), "a/..");
}

#[test]
fn equality_looks_at_components() {
    assert_eq!(BootPath::from_text("/a//b/"), BootPath::from_text("/a/./b"));
    assert_ne!(BootPath::from_text("/a/b"), BootPath::from_text("a/b"));
}
