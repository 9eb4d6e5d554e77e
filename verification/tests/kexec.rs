//! The remembered selection and the key archive.

use kexec_menu::kexec::{build_key_cpio, deserialize_boot_selection, serialize_boot_selection};
use kexec_menu::path::BootPath;
use kexec_menu::types::BootSelection;


// --- EFI var serialization ---

#[test]
fn serialize_roundtrip() {
    let sel = BootSelection {
        leaf_path: BootPath::from_text("/mnt/boot/nixos/gen42"),
        entry_name: "default".into(),
    };
    let data = serialize_boot_selection(&sel);
    let back = deserialize_boot_selection(&data).unwrap();
    assert_eq!(back, sel);
}

#[test]
fn serialize_format() {
    let sel = BootSelection {
        leaf_path: BootPath::from_text("/mnt/boot/gen1"),
        entry_name: "gaming".into(),
    };
    let data = serialize_boot_selection(&sel);
    assert_eq!(data, b"/mnt/boot/gen1\ngaming");
}

#[test]
fn deserialize_missing_newline() {
    let data = b"no-newline-here";
    assert!(deserialize_boot_selection(data).is_err());
}

#[test]
fn deserialize_empty_path() {
    let data = b"\nentry";
    assert!(deserialize_boot_selection(data).is_err());
}

#[test]
fn deserialize_empty_name() {
    let data = b"/mnt/boot/gen1\n";
    assert!(deserialize_boot_selection(data).is_err());
}

#[test]
fn deserialize_with_newlines_in_name() {
    // entry_name should capture everything after first newline
    let data = b"/mnt/boot/gen1\nname\nwith\nnewlines";
    let sel = deserialize_boot_selection(data).unwrap();
    assert_eq!(sel.leaf_path, BootPath::from_text("/mnt/boot/gen1"));
    assert_eq!(sel.entry_name, "name\nwith\nnewlines");
}

// --- CPIO construction ---

#[test]
fn cpio_has_magic() {
    let cpio = build_key_cpio("run/key", b"secret");
    // Every entry starts with "070701"
    let magic = b"070701";
    assert!(cpio.windows(6).any(|w| w == magic));
}

#[test]
fn cpio_has_trailer() {
    let cpio = build_key_cpio("run/key", b"secret");
    assert!(cpio.windows(10).any(|w| w == b"TRAILER!!!"));
}

#[test]
fn cpio_contains_file_data() {
    let content = b"my-secret-key-data";
    let cpio = build_key_cpio("run/bootmenu-keys/test-uuid", content);
    assert!(cpio.windows(content.len()).any(|w| w == content));
}

#[test]
fn cpio_creates_parent_dirs() {
    let cpio = build_key_cpio("run/bootmenu-keys/uuid", b"key");
    let cpio_str = String::from_utf8_lossy(&cpio);
    // Should contain "run" and "run/bootmenu-keys" directory entries
    assert!(cpio_str.contains("run\0"), "missing 'run' dir entry");
    assert!(cpio_str.contains("run/bootmenu-keys\0"), "missing 'run/bootmenu-keys' dir entry");
}

#[test]
fn cpio_header_length() {
    // Each newc header is exactly 110 bytes
    let cpio = build_key_cpio("a", b"x");
    // First entry should start with magic at offset 0
    assert_eq!(&cpio[..6], b"070701");
    // Header is 110 bytes, then "a\0" (2 bytes) = 112, pad to 4 = 112
    // Then file data "x" (1 byte) pad to 4 = 4
    // Then trailer header...
}

#[test]
fn cpio_alignment() {
    // Verify the CPIO is properly 4-byte aligned throughout
    let cpio = build_key_cpio("run/bootmenu-keys/test", b"hello");
    // Total length should be 4-byte aligned for each record
    // We can verify by checking that each "070701" magic appears at
    // a 4-byte aligned offset (relative to the start of the previous record)
    let mut offsets: Vec<usize> = Vec::new();
    for i in 0..cpio.len().saturating_sub(5) {
        if &cpio[i..i + 6] == b"070701" {
            offsets.push(i);
        }
    }
    // Should have at least 3 entries (dir "run", dir "run/bootmenu-keys",
    // file, trailer)
    assert!(offsets.len() >= 4, "expected >=4 entries, got {}", offsets.len());
    // Each offset should be 4-byte aligned
    for off in &offsets {
        assert_eq!(off % 4, 0, "entry at offset {} not 4-byte aligned", off);
    }
}

#[test]
fn cpio_empty_content() {
    let cpio = build_key_cpio("run/key", b"");
    assert!(cpio.windows(10).any(|w| w == b"TRAILER!!!"));
}

#[test]
fn cpio_file_mode_restricted() {
    // The file entry should have mode 0o100600 (0x81C0 in hex = 000081C0 in 8-char hex)
    // It appears at offset 14 in the header (after magic 6 + ino 8 = 14)
    let cpio = build_key_cpio("a", b"x");
    // Find the second 070701 (first is dir or file, depends)
    // For path "a" there are no parent dirs, so first entry is the file
    let mode_hex = &cpio[14..22];
    assert_eq!(mode_hex, b"00008180", "file mode should be 0o100600 (hex 8180)");
}
