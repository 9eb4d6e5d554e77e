//! Filesystem types, labels, device groups and the disk whitelist.

use kexec_menu::devices::pattern_matches;
use kexec_menu::mount::{
    group_multi_device, label_from_bytes, member_windows, probe_fs_type, probe_windows,
    read_multi_device_info, FsType, MultiDeviceInfo, ProbeResult, ReadOutcome, Window,
};
use kexec_menu::path::BootPath;
use kexec_menu::types::{Error, IoFailure};

const EXT_SUPER_OFFSET: u64 = 1024 + 0x38;
const EXT_MAGIC: [u8; 2] = [0x53, 0xEF];
const BTRFS_MAGIC_OFFSET: u64 = 0x10000 + 0x40;
const BTRFS_MAGIC: &[u8] = b"_BHRfS_M";
const BTRFS_FSID_OFFSET: u64 = 0x10000 + 0x20;
const BTRFS_NUM_DEVICES_OFFSET: u64 = 0x10000 + 0x88;
const BCACHEFS_SUPER_OFFSET: u64 = 0x1000 + 0x18;
const BCACHEFS_MAGIC: [u8; 4] = [0xf6, 0x73, 0x85, 0xc6];
const XFS_MAGIC: &[u8] = b"XFSB";
const F2FS_SUPER_OFFSET: u64 = 1024;
const F2FS_MAGIC: [u8; 4] = [0x10, 0x20, 0xF5, 0xF2];
const LUKS_MAGIC: &[u8] = b"LUKS\xba\xbe";


// --- label_from_bytes tests ---

#[test]
fn label_nul_terminated() {
    let mut buf = [0u8; 16];
    buf[..5].copy_from_slice(b"hello");
    assert_eq!(label_from_bytes(&buf), Some("hello".into()));
}

#[test]
fn label_full_buffer_no_nul() {
    let buf = *b"abcdefghijklmnop";
    assert_eq!(label_from_bytes(&buf), Some("abcdefghijklmnop".into()));
}

#[test]
fn label_empty() {
    let buf = [0u8; 16];
    assert_eq!(label_from_bytes(&buf), None);
}

#[test]
fn label_whitespace_only() {
    let mut buf = [0u8; 16];
    buf[..3].copy_from_slice(b"   ");
    assert_eq!(label_from_bytes(&buf), None);
}

#[test]
fn label_with_trailing_spaces() {
    let mut buf = [0u8; 16];
    buf[..8].copy_from_slice(b"myfs   \0");
    assert_eq!(label_from_bytes(&buf), Some("myfs".into()));
}

// --- FsType tests ---

#[test]
fn fstype_ext4_as_str() {
    assert_eq!(FsType::Ext4.as_str(), "ext4");
    assert_eq!(FsType::Ext4.mount_type(), Some("ext4"));
}

#[test]
fn fstype_btrfs_as_str() {
    assert_eq!(FsType::Btrfs.as_str(), "btrfs");
    assert_eq!(FsType::Btrfs.mount_type(), Some("btrfs"));
}

#[test]
fn fstype_bcachefs_as_str() {
    assert_eq!(FsType::Bcachefs.as_str(), "bcachefs");
    assert_eq!(FsType::Bcachefs.mount_type(), Some("bcachefs"));
}

#[test]
fn fstype_xfs_as_str() {
    assert_eq!(FsType::Xfs.as_str(), "xfs");
    assert_eq!(FsType::Xfs.mount_type(), Some("xfs"));
}

#[test]
fn fstype_f2fs_as_str() {
    assert_eq!(FsType::F2fs.as_str(), "f2fs");
    assert_eq!(FsType::F2fs.mount_type(), Some("f2fs"));
}

#[test]
fn fstype_luks_as_str() {
    assert_eq!(FsType::Luks.as_str(), "crypto_LUKS");
    assert_eq!(FsType::Luks.mount_type(), None);
}

// --- probe_fs_type tests with synthetic block devices ---

#[test]
fn probe_ext4_magic() {
    let mut tmp = test_device(2048);
    write_at(&mut tmp, EXT_SUPER_OFFSET, &EXT_MAGIC);
    assert_eq!(probe(&tmp).unwrap(), Some(FsType::Ext4));
}

#[test]
fn probe_luks_magic() {
    let mut tmp = test_device(2048);
    write_at(&mut tmp, 0, LUKS_MAGIC);
    assert_eq!(probe(&tmp).unwrap(), Some(FsType::Luks));
}

#[test]
fn probe_btrfs_magic() {
    let mut tmp = test_device(0x10048);
    write_at(&mut tmp, BTRFS_MAGIC_OFFSET, BTRFS_MAGIC);
    assert_eq!(probe(&tmp).unwrap(), Some(FsType::Btrfs));
}

#[test]
fn probe_bcachefs_magic() {
    let mut tmp = test_device(0x101c); // must cover magic at 0x1018
    write_at(&mut tmp, BCACHEFS_SUPER_OFFSET, &BCACHEFS_MAGIC);
    assert_eq!(probe(&tmp).unwrap(), Some(FsType::Bcachefs));
}

#[test]
fn probe_xfs_magic() {
    let mut tmp = test_device(2048);
    write_at(&mut tmp, 0, XFS_MAGIC);
    assert_eq!(probe(&tmp).unwrap(), Some(FsType::Xfs));
}

#[test]
fn probe_f2fs_magic() {
    let mut tmp = test_device(2048);
    write_at(&mut tmp, F2FS_SUPER_OFFSET, &F2FS_MAGIC);
    assert_eq!(probe(&tmp).unwrap(), Some(FsType::F2fs));
}

#[test]
fn probe_unknown() {
    let tmp = test_device(0x10048);
    assert_eq!(probe(&tmp).unwrap(), None);
}

#[test]
fn probe_luks_priority_over_ext4() {
    // If both magics are present, LUKS (checked first) wins
    let mut tmp = test_device(2048);
    write_at(&mut tmp, 0, LUKS_MAGIC);
    write_at(&mut tmp, EXT_SUPER_OFFSET, &EXT_MAGIC);
    assert_eq!(probe(&tmp).unwrap(), Some(FsType::Luks));
}

// --- Test helpers ---

fn test_device(size: usize) -> Vec<u8> {
    vec![0u8; size]
}

fn write_at(dev: &mut Vec<u8>, offset: u64, data: &[u8]) {
    let at = offset as usize;
    dev[at..at + data.len()].copy_from_slice(data);
}

fn failure() -> IoFailure {
    IoFailure { code: None, message: "failed to fill whole buffer".to_string() }
}

fn read_window(dev: &[u8], w: &Window) -> ReadOutcome {
    let at = w.offset as usize;
    if at + w.len <= dev.len() {
        ReadOutcome::Bytes(dev[at..at + w.len].to_vec())
    } else {
        ReadOutcome::Unreadable(failure())
    }
}

fn read_windows(dev: &[u8], windows: &[Window]) -> Vec<ReadOutcome> {
    windows.iter().map(|w| read_window(dev, w)).collect()
}

fn probe(dev: &[u8]) -> Result<Option<FsType>, Error> {
    probe_fs_type(&Ok(read_windows(dev, &probe_windows())))
}

fn multi_device_info(dev: &[u8], ft: FsType) -> Result<Option<MultiDeviceInfo>, Error> {
    read_multi_device_info(ft, &Ok(read_windows(dev, &member_windows(ft))))
}

// --- multi-device info tests ---

#[test]
fn multi_device_bcachefs_returns_none() {
    // bcachefs is treated as single-device; kernel handles assembly
    let mut tmp = test_device(0x1000 + 0x7C);
    write_at(&mut tmp, BCACHEFS_SUPER_OFFSET, &BCACHEFS_MAGIC);
    let info = multi_device_info(&tmp, FsType::Bcachefs).unwrap();
    assert!(info.is_none(), "bcachefs should always return None");
}

#[test]
fn multi_device_btrfs_two_devices() {
    let mut tmp = test_device(0x10090); // must cover num_devices at 0x10088
                                    // Write btrfs magic
    write_at(&mut tmp, BTRFS_MAGIC_OFFSET, BTRFS_MAGIC);
    // Write fsid UUID
    let uuid = [
        0x10, 0x20, 0x30, 0x40, 0x50, 0x60, 0x70, 0x80, 0x90, 0xA0, 0xB0, 0xC0, 0xD0, 0xE0,
        0xF0, 0x01,
    ];
    write_at(&mut tmp, BTRFS_FSID_OFFSET, &uuid);
    // num_devices = 2 (u64 LE)
    write_at(&mut tmp, BTRFS_NUM_DEVICES_OFFSET, &2u64.to_le_bytes());

    let info = multi_device_info(&tmp, FsType::Btrfs).unwrap();
    let info = info.expect("should return Some for multi-device");
    assert_eq!(info.fs_uuid, uuid);
    assert_eq!(info.nr_devices, 2);
    assert_eq!(info.dev_idx, 0);
}

#[test]
fn multi_device_btrfs_single_returns_none() {
    let mut tmp = test_device(0x10090);
    write_at(&mut tmp, BTRFS_MAGIC_OFFSET, BTRFS_MAGIC);
    // num_devices = 1
    write_at(&mut tmp, BTRFS_NUM_DEVICES_OFFSET, &1u64.to_le_bytes());

    let info = multi_device_info(&tmp, FsType::Btrfs).unwrap();
    assert!(info.is_none(), "single device should return None");
}

#[test]
fn multi_device_ext4_returns_none() {
    let mut tmp = test_device(2048);
    write_at(&mut tmp, EXT_SUPER_OFFSET, &EXT_MAGIC);
    let info = multi_device_info(&tmp, FsType::Ext4).unwrap();
    assert!(info.is_none(), "ext4 doesn't support multi-device");
}

#[test]
fn multi_device_xfs_returns_none() {
    let mut tmp = test_device(2048);
    write_at(&mut tmp, 0, XFS_MAGIC);
    let info = multi_device_info(&tmp, FsType::Xfs).unwrap();
    assert!(info.is_none(), "XFS doesn't support multi-device");
}

// --- device grouping tests ---

#[test]
fn group_two_btrfs_devices() {
    let uuid = [0xCC; 16];
    let probed = vec![
        ProbeResult {
            path: BootPath::from_text("/dev/sda1"),
            fstype: FsType::Btrfs,
            multi: Some(MultiDeviceInfo {
                fs_uuid: uuid,
                nr_devices: 2,
                dev_idx: 0,
            }),
        },
        ProbeResult {
            path: BootPath::from_text("/dev/sdb1"),
            fstype: FsType::Btrfs,
            multi: Some(MultiDeviceInfo {
                fs_uuid: uuid,
                nr_devices: 2,
                dev_idx: 0,
            }),
        },
    ];
    let (groups, singles) = group_multi_device(probed);
    assert_eq!(groups.len(), 1);
    assert_eq!(singles.len(), 0);
    assert!(groups[0].is_complete());
}

#[test]
fn group_singles_pass_through() {
    let probed = vec![
        ProbeResult {
            path: BootPath::from_text("/dev/sda1"),
            fstype: FsType::Ext4,
            multi: None,
        },
        ProbeResult {
            path: BootPath::from_text("/dev/sdb1"),
            fstype: FsType::Ext4,
            multi: None,
        },
    ];
    let (groups, singles) = group_multi_device(probed);
    assert_eq!(groups.len(), 0);
    assert_eq!(singles.len(), 2);
}

#[test]
fn group_mixed_multi_and_single() {
    let uuid = [0xDD; 16];
    let probed = vec![
        ProbeResult {
            path: BootPath::from_text("/dev/sda1"),
            fstype: FsType::Btrfs,
            multi: Some(MultiDeviceInfo {
                fs_uuid: uuid,
                nr_devices: 2,
                dev_idx: 0,
            }),
        },
        ProbeResult {
            path: BootPath::from_text("/dev/sdb1"),
            fstype: FsType::Ext4,
            multi: None,
        },
        ProbeResult {
            path: BootPath::from_text("/dev/sdc1"),
            fstype: FsType::Btrfs,
            multi: Some(MultiDeviceInfo {
                fs_uuid: uuid,
                nr_devices: 2,
                dev_idx: 0,
            }),
        },
    ];
    let (groups, singles) = group_multi_device(probed);
    assert_eq!(groups.len(), 1);
    assert_eq!(singles.len(), 1);
    assert_eq!(singles[0].path, BootPath::from_text("/dev/sdb1"));
    assert!(groups[0].is_complete());
}

#[test]
fn group_two_separate_btrfs_filesystems() {
    let uuid_a = [0x11; 16];
    let uuid_b = [0x22; 16];
    let probed = vec![
        ProbeResult {
            path: BootPath::from_text("/dev/sda1"),
            fstype: FsType::Btrfs,
            multi: Some(MultiDeviceInfo {
                fs_uuid: uuid_a,
                nr_devices: 2,
                dev_idx: 0,
            }),
        },
        ProbeResult {
            path: BootPath::from_text("/dev/sdb1"),
            fstype: FsType::Btrfs,
            multi: Some(MultiDeviceInfo {
                fs_uuid: uuid_b,
                nr_devices: 2,
                dev_idx: 0,
            }),
        },
        ProbeResult {
            path: BootPath::from_text("/dev/sdc1"),
            fstype: FsType::Btrfs,
            multi: Some(MultiDeviceInfo {
                fs_uuid: uuid_a,
                nr_devices: 2,
                dev_idx: 0,
            }),
        },
        ProbeResult {
            path: BootPath::from_text("/dev/sdd1"),
            fstype: FsType::Btrfs,
            multi: Some(MultiDeviceInfo {
                fs_uuid: uuid_b,
                nr_devices: 2,
                dev_idx: 0,
            }),
        },
    ];
    let (groups, singles) = group_multi_device(probed);
    assert_eq!(groups.len(), 2);
    assert_eq!(singles.len(), 0);
    assert!(groups[0].is_complete());
    assert!(groups[1].is_complete());
}

#[test]
fn group_empty_input() {
    let (groups, singles) = group_multi_device(vec![]);
    assert!(groups.is_empty());
    assert!(singles.is_empty());
}

// --- disk-whitelist pattern matching tests ---

#[test]
fn exact_match() {
    assert!(pattern_matches("sda1", "sda1"));
    assert!(!pattern_matches("sda1", "sda2"));
}

#[test]
fn glob_suffix() {
    assert!(pattern_matches("nvme*", "nvme0n1p1"));
    assert!(pattern_matches("sd*", "sda1"));
    assert!(!pattern_matches("nvme*", "sda1"));
}

#[test]
fn dev_prefix_stripped() {
    assert!(pattern_matches("/dev/sda1", "sda1"));
    assert!(pattern_matches("/dev/nvme*", "nvme0n1p1"));
}

#[test]
fn empty_prefix_glob_matches_all() {
    assert!(pattern_matches("*", "anything"));
}

#[test]
fn no_partial_match_without_glob() {
    assert!(!pattern_matches("sda", "sda1"));
}
