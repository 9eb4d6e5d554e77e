//! What loading and booting an entry takes.

use kexec_menu::kexec::{
    boot_entry, build_initrd, build_key_cpio, deserialize_boot_selection, efi_selection_file,
    efivar_path, kexec_cmdline, read_efi_selection, read_efi_timeout, serialize_boot_selection,
    EFI_TIMEOUT_PATH,
};
use kexec_menu::path::BootPath;
use kexec_menu::types::{BootSelection, Error};

fn complaint<T: std::fmt::Debug>(r: Result<T, Error>) -> String {
    match r {
        Err(Error::Parse(m)) => m,
        other => panic!("{other:?}"),
    }
}

fn selection(path: &str, name: &str) -> BootSelection {
    BootSelection { leaf_path: BootPath::from_text(path), entry_name: name.into() }
}

#[test]
fn efi_variables_have_their_files() {
    assert_eq!(
        efivar_path().to_text(),
        "/sys/firmware/efi/efivars/KexecMenuSelection-e518894a-0634-4b2d-b448-e654c0eda6a7"
    );
    assert_eq!(
        EFI_TIMEOUT_PATH,
        "/sys/firmware/efi/efivars/KexecMenuTimeout-e518894a-0634-4b2d-b448-e654c0eda6a7"
    );
}

#[test]
fn selections_that_cannot_be_read() {
    assert_eq!(complaint(deserialize_boot_selection(b"a\n\xff")), "efi var: invalid UTF-8");
    assert_eq!(complaint(deserialize_boot_selection(b"a")), "efi var: missing entry_name");
    assert_eq!(complaint(deserialize_boot_selection(b"")), "efi var: missing entry_name");
    assert_eq!(complaint(deserialize_boot_selection(b"\nb")), "efi var: empty field");
    assert_eq!(complaint(deserialize_boot_selection(b"a\n")), "efi var: empty field");
}

#[test]
fn selection_file_has_attributes_before_the_selection() {
    let file = efi_selection_file(&selection("/boot/gen1", "gaming"));
    assert_eq!(file, b"\x07\x00\x00\x00/boot/gen1\ngaming");
    assert_eq!(read_efi_selection(Some(&file)), Some(selection("/boot/gen1", "gaming")));
}

#[test]
fn selection_of_an_odd_path_is_stored_as_text() {
    let sel = BootSelection { leaf_path: BootPath::from_bytes(b"/a\xff"), entry_name: "é".into() };
    assert_eq!(serialize_boot_selection(&sel), "/a\u{fffd}\né".as_bytes());
}

#[test]
fn selection_file_may_be_missing_or_short() {
    assert_eq!(read_efi_selection(None), None);
    assert_eq!(read_efi_selection(Some(b"\x07\x00\x00\x00")), None);
    assert_eq!(read_efi_selection(Some(b"\x07\x00\x00\x00x")), None);
}

#[test]
fn timeout_is_a_little_endian_number() {
    assert_eq!(read_efi_timeout(None), None);
    assert_eq!(read_efi_timeout(Some(b"\x07\x00\x00\x00\x05")), None);
    assert_eq!(read_efi_timeout(Some(b"\x07\x00\x00\x00\x05\x01")), Some(261));
    assert_eq!(read_efi_timeout(Some(b"\x07\x00\x00\x00\xff\xff\x00")), Some(65535));
}

#[test]
fn command_line_ends_in_a_zero_byte() {
    assert_eq!(kexec_cmdline("root=/dev/sda1").unwrap(), b"root=/dev/sda1\0");
    assert_eq!(kexec_cmdline("").unwrap(), b"\0");
    assert_eq!(complaint(kexec_cmdline("a\0b")), "cmdline contains NUL byte");
}

#[test]
fn extra_segment_follows_the_initrd() {
    assert_eq!(build_initrd(b"base".to_vec(), Some(b"more")), b"basemore");
    assert_eq!(build_initrd(b"base".to_vec(), None), b"base");
}

#[test]
fn key_archive_byte_by_byte() {
    let mut expected: Vec<u8> = Vec::new();
    let header = |ino: u32, mode: u32, size: u32, name: &str| {
        let mut h = format!(
            "070701{:08X}{:08X}{:08X}{:08X}{:08X}{:08X}{:08X}{:08X}{:08X}{:08X}{:08X}{:08X}{:08X}{}\0",
            ino, mode, 0, 0, 1, 0, size, 0, 0, 0, 0, name.len() + 1, 0, name
        )
        .into_bytes();
        while h.len() % 4 != 0 {
            h.push(0);
        }
        h
    };
    expected.extend(header(1, 0o040755, 0, "run"));
    expected.extend(header(2, 0o040755, 0, "run/keys"));
    expected.extend(header(3, 0o100600, 5, "run/keys/u"));
    expected.extend(b"hello\0\0\0");
    expected.extend(header(0, 0, 0, "TRAILER!!!"));
    assert_eq!(build_key_cpio("run/keys/u", b"hello"), expected);
    assert_eq!(expected.len() % 4, 0);
}

/// The regular files of an archive, with their contents.
fn unpack(archive: &[u8]) -> Vec<(String, Vec<u8>)> {
    let mut files = Vec::new();
    let mut at = 0;
    loop {
        let field = |i: usize| {
            let from = at + 6 + 8 * i;
            usize::from_str_radix(std::str::from_utf8(&archive[from..from + 8]).unwrap(), 16).unwrap()
        };
        assert_eq!(&archive[at..at + 6], b"070701");
        let (mode, size, name_len) = (field(1), field(6), field(11));
        let name = String::from_utf8(archive[at + 110..at + 110 + name_len - 1].to_vec()).unwrap();
        let data = (at + 110 + name_len + 3) / 4 * 4;
        if name == "TRAILER!!!" {
            assert_eq!(data, archive.len());
            return files;
        }
        if mode == 0o100600 {
            files.push((name, archive[data..data + size].to_vec()));
        }
        at = (data + size + 3) / 4 * 4;
    }
}

#[test]
fn key_archive_can_be_unpacked() {
    for key in [&b""[..], b"k", b"secret!!", b"\x00\xff\x00"] {
        let archive = build_key_cpio("run/bootmenu-keys/1234-ABCD", key);
        assert_eq!(unpack(&archive), vec![("run/bootmenu-keys/1234-ABCD".to_string(), key.to_vec())]);
    }
}

#[test]
fn plan_of_an_entry() {
    let leaf = BootPath::from_text("/mnt/boot/gen1");
    let plan = boot_entry(&leaf, "vmlinuz", "/abs/initrd", "quiet", "default", None);
    assert_eq!(plan.kernel_path.to_text(), "/mnt/boot/gen1/vmlinuz");
    assert_eq!(plan.initrd_path.to_text(), "/abs/initrd");
    assert_eq!((plan.cmdline.as_str(), plan.extra_initrd), ("quiet", None));
    assert_eq!(plan.selection, selection("/mnt/boot/gen1", "default"));
}

#[test]
fn plan_hands_the_key_on() {
    let leaf = BootPath::from_text("/l");
    let plan = boot_entry(&leaf, "k", "i", "", "e", Some((b"pw", "UUID-1")));
    let archive = plan.extra_initrd.unwrap();
    assert_eq!(archive, build_key_cpio("run/bootmenu-keys/UUID-1", b"pw"));
    assert_eq!(unpack(&archive), vec![("run/bootmenu-keys/UUID-1".to_string(), b"pw".to_vec())]);
}
