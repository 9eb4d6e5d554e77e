//! Block devices, their names, and the discovery of sources.

use kexec_menu::devices::{
    best_label, device_allowed, enumerate_block_devices, read_device_uuid, read_partition_label,
    read_sysfs_size, BlockDevice, DiskLink, SysChild, SysDisk,
};
use kexec_menu::discover::{
    inner_filesystem, mount_group_ro, mount_point_of, mount_ro, open_filesystem, path_to_cstring,
    scan_error, tool_error, unlock_and_mount, DiskNames, Discovery, MountJob, ScannedDevice,
    UnlockPlan, ENOKEY,
};
use kexec_menu::mount::{
    label_window, member_windows, probe_fs_type, probe_windows, read_fs_label,
    read_multi_device_info, DeviceGroup, FsType, ReadOutcome, Window,
};
use kexec_menu::path::BootPath;
use kexec_menu::types::{Error, IoFailure, Source, SourceState};

fn complaint<T: std::fmt::Debug>(r: Result<T, Error>) -> String {
    match r {
        Err(Error::Parse(m)) => m,
        other => panic!("{other:?}"),
    }
}

fn failure(code: i32, message: &str) -> IoFailure {
    IoFailure { code: Some(code), message: message.into() }
}

// --- Enumeration ---

fn disk(name: &str, size: &str, children: Vec<SysChild>) -> SysDisk {
    SysDisk { name: name.as_bytes().to_vec(), size: Some(size.into()), children }
}

fn child(name: &str, is_partition: bool, size: Option<&str>) -> SysChild {
    SysChild { name: name.as_bytes().to_vec(), is_partition, size: size.map(String::from) }
}

#[test]
fn partitions_and_bare_disks_are_listed_by_name() {
    let disks = vec![
        disk("vdb", "8\n", vec![child("queue", false, None)]),
        disk("sda", "100", vec![child("sda2", true, Some("20\n")), child("sda1", true, Some("10"))]),
        disk("ram0", "8", vec![]),
        disk("loop7", "8", vec![]),
        disk("sdb", "100", vec![child("sdb1", true, Some("0")), child("sdb2", true, None)]),
        disk("sr0", "0", vec![]),
        disk("sdc", "nonsense", vec![]),
    ];
    let found: Vec<(String, String, u64)> = enumerate_block_devices(&disks)
        .into_iter()
        .map(|d| (d.name, d.path.to_text(), d.size_bytes))
        .collect();
    let expected = [("sda1", 10), ("sda2", 20), ("vdb", 8)]
        .map(|(n, s)| (n.to_string(), format!("/dev/{n}"), s * 512));
    assert_eq!(found, expected);
}

#[test]
fn sizes_are_counted_in_sectors() {
    assert_eq!(read_sysfs_size(&Some(" 3\n".into())), 1536);
    assert_eq!(read_sysfs_size(&Some("-3".into())), 0);
    assert_eq!(read_sysfs_size(&Some(String::new())), 0);
    assert_eq!(read_sysfs_size(&None), 0);
    assert_eq!(read_sysfs_size(&Some("99999999999999999999".into())), 0);
}

// --- Names ---

fn link(name: &str, target: &str) -> DiskLink {
    DiskLink { name: name.as_bytes().to_vec(), target: Some(BootPath::from_text(target)) }
}

fn device(name: &str) -> BlockDevice {
    BlockDevice { path: BootPath::from_text(&format!("/dev/{name}")), name: name.into(), size_bytes: 512 }
}

#[test]
fn links_name_the_device_they_point_at() {
    let links = vec![
        DiskLink { name: b"broken".to_vec(), target: None },
        link("odd", ".."),
        link("one", "../../sda1"),
        link("two", "../../sda1"),
        DiskLink { name: b"b\xff".to_vec(), target: Some(BootPath::from_text("sdb1")) },
    ];
    assert_eq!(read_partition_label("sda1", &links), Some("one".into()));
    assert_eq!(read_device_uuid("sdb1", &links), Some("b\u{fffd}".into()));
    assert_eq!(read_device_uuid("sda", &links), None);
}

#[test]
fn labels_are_preferred_in_order() {
    let dev = device("sda1");
    let parts = vec![link("part", "../../sda1")];
    let uuids = vec![link("uuid", "../../sda1")];
    assert_eq!(best_label(&dev, Some("fs".into()), &parts, &uuids), "part");
    assert_eq!(best_label(&dev, Some("fs".into()), &[], &uuids), "fs");
    assert_eq!(best_label(&dev, None, &[], &uuids), "uuid");
    assert_eq!(best_label(&dev, None, &[], &[]), "sda1");
}

#[test]
fn whitelist_patterns_are_separated_by_commas() {
    let list = Some("/dev/sda1, nvme* ,vdb".to_string());
    assert!(device_allowed("sda1", &list));
    assert!(device_allowed("nvme0n1p1", &list));
    assert!(device_allowed("vdb", &list));
    assert!(!device_allowed("sda2", &list));
    assert!(!device_allowed("vdb1", &list));
    assert!(device_allowed("any", &None));
    assert!(device_allowed("any", &Some(String::new())));
    assert!(!device_allowed("any", &Some(" ".into())));
}

// --- Labels ---

fn label_of(ft: FsType, bytes: &[u8]) -> Result<Option<String>, Error> {
    let mut buf = vec![0u8; label_window(ft).unwrap().len];
    buf[..bytes.len()].copy_from_slice(bytes);
    read_fs_label(ft, &Ok(ReadOutcome::Bytes(buf)))
}

#[test]
fn labels_have_their_places() {
    let place = |ft| label_window(ft).map(|w| (w.offset, w.len));
    assert_eq!(place(FsType::Ext4), Some((1024 + 0x78, 16)));
    assert_eq!(place(FsType::Btrfs), Some((0x1012b, 256)));
    assert_eq!(place(FsType::Bcachefs), Some((0x1000 + 0x48, 32)));
    assert_eq!(place(FsType::Xfs), Some((108, 12)));
    assert_eq!(place(FsType::F2fs), Some((1024 + 0x1a0, 512)));
    assert_eq!(place(FsType::Luks), None);
}

#[test]
fn labels_are_decoded() {
    assert_eq!(label_of(FsType::Ext4, b" root \0junk").unwrap(), Some("root".into()));
    assert_eq!(label_of(FsType::Xfs, b"twelve_bytes").unwrap(), Some("twelve_bytes".into()));
    assert_eq!(label_of(FsType::Btrfs, b"\xff").unwrap(), None);
    assert_eq!(label_of(FsType::F2fs, b"d\0\xe9\0=\xd8\0\xde\0\0x\0").unwrap(), Some("dé\u{1f600}".into()));
    assert_eq!(label_of(FsType::F2fs, b"").unwrap(), None);
    assert_eq!(label_of(FsType::F2fs, b" \0").unwrap(), None);
    assert_eq!(complaint(label_of(FsType::F2fs, b"\0\xd8x\0")), "invalid UTF-16 in F2FS label");
}

#[test]
fn labels_that_cannot_be_read() {
    let short = || Ok(ReadOutcome::Unreadable(failure(5, "short")));
    match read_fs_label(FsType::Ext4, &short()) {
        Err(Error::Io(f)) => assert_eq!((f.code, f.message.as_str()), (Some(5), "short")),
        other => panic!("{other:?}"),
    }
    assert_eq!(read_fs_label(FsType::Bcachefs, &short()).unwrap(), None);
    assert_eq!(read_fs_label(FsType::Luks, &short()).unwrap(), None);
    assert!(matches!(read_fs_label(FsType::Luks, &Err(failure(2, "gone"))), Err(Error::Io(_))));
    let lost = Ok(ReadOutcome::Unreachable(failure(22, "seek")));
    assert!(matches!(read_fs_label(FsType::Xfs, &lost), Err(Error::Io(_))));
}

#[test]
fn probing_reports_what_stops_it() {
    assert!(matches!(probe_fs_type(&Err(failure(2, "gone"))), Err(Error::Io(_))));
    let n = probe_windows().len();
    let short = (0..n).map(|_| ReadOutcome::Unreadable(failure(5, "short"))).collect();
    assert_eq!(probe_fs_type(&Ok(short)).unwrap(), None);
    let lost = (0..n).map(|_| ReadOutcome::Unreachable(failure(22, "seek"))).collect();
    assert!(matches!(probe_fs_type(&Ok(lost)), Err(Error::Io(_))));
}

#[test]
fn member_counts_are_cut_to_32_bits() {
    let reads = |count: u64| {
        Ok(vec![ReadOutcome::Bytes(vec![7; 16]), ReadOutcome::Bytes(count.to_le_bytes().to_vec())])
    };
    let info = read_multi_device_info(FsType::Btrfs, &reads(0x3_0000_0002)).unwrap().unwrap();
    assert_eq!((info.nr_devices, info.dev_idx, info.fs_uuid), (2, 0, [7; 16]));
    assert!(read_multi_device_info(FsType::Btrfs, &reads(1)).unwrap().is_none());
    assert!(read_multi_device_info(FsType::Ext4, &Ok(vec![])).unwrap().is_none());
    assert!(matches!(read_multi_device_info(FsType::Btrfs, &Err(failure(2, "gone"))), Err(Error::Io(_))));
}

// --- Mounting and unlocking ---

#[test]
fn devices_are_mounted_below_one_directory() {
    assert_eq!(mount_point_of(&BootPath::from_text("/dev/sda1")).to_text(), "/mnt/kexec-menu/sda1");
    assert_eq!(mount_point_of(&BootPath::from_text("/")).to_text(), "/mnt/kexec-menu/unknown");
}

#[test]
fn mount_arguments_end_in_zero_bytes() {
    let dev = BootPath::from_text("/dev/sda1");
    let target = mount_point_of(&dev);
    let args = mount_ro(&dev, &target, FsType::Xfs).unwrap();
    assert_eq!(args.source, b"/dev/sda1\0");
    assert_eq!(args.target, b"/mnt/kexec-menu/sda1\0");
    assert_eq!(args.fstype, "xfs");
    assert_eq!(complaint(mount_ro(&dev, &target, FsType::Luks)), "crypto_LUKS is not directly mountable");
    let odd = BootPath::from_bytes(b"/dev/a\0b");
    assert_eq!(complaint(mount_ro(&odd, &target, FsType::Luks)), "path contains NUL byte");
    assert_eq!(complaint(mount_ro(&dev, &odd, FsType::Xfs)), "path contains NUL byte");
    assert_eq!(complaint(path_to_cstring(&odd)), "path contains NUL byte");
}

fn group(fstype: FsType, devices: &[&str], nr_expected: u32) -> DeviceGroup {
    let devices = devices.iter().map(|d| (BootPath::from_text(d), 0)).collect();
    DeviceGroup { fstype, fs_uuid: [1; 16], devices, nr_expected }
}

#[test]
fn groups_are_mounted_as_their_filesystem_asks() {
    let m = mount_group_ro(&group(FsType::Btrfs, &["/dev/a", "/dev/b"], 2)).unwrap();
    let names: Vec<String> = m.scan.iter().map(|d| d.to_text()).collect();
    assert_eq!(names, ["/dev/a", "/dev/b"]);
    assert_eq!((m.source.to_text().as_str(), m.options), ("/dev/a", ""));
    assert_eq!(m.mount_point.to_text(), "/mnt/kexec-menu/a");
    let m = mount_group_ro(&group(FsType::Bcachefs, &["/dev/a", "/dev/b", "/dev/c"], 3)).unwrap();
    assert!(m.scan.is_empty());
    assert_eq!((m.source.to_text().as_str(), m.options), ("/dev/a:/dev/b:/dev/c", ""));
    assert_eq!(m.mount_point.to_text(), "/mnt/kexec-menu/a");
    let m = mount_group_ro(&group(FsType::Bcachefs, &["/dev/a"], 2)).unwrap();
    assert_eq!((m.source.to_text().as_str(), m.options), ("/dev/a", "degraded"));
    let refused = mount_group_ro(&group(FsType::Xfs, &["/dev/a"], 1));
    assert_eq!(complaint(refused), "xfs does not support multi-device mount");
}

#[test]
fn an_incomplete_bcachefs_is_mounted_all_the_same() {
    let degraded = || Discovery {
        scans: vec![],
        names: no_names(),
        whitelist: None,
        locked: vec![],
        groups: vec![group(FsType::Btrfs, &["/dev/x"], 2), group(FsType::Bcachefs, &["/dev/a"], 2)],
        singles: vec![],
        tries_left: 0,
    };
    assert_eq!(degraded().mount_jobs(), [MountJob::Group(1)]);
    let waiting = row("/dev/x (2×btrfs)", "/dev/x", "error: incomplete: 1/2 devices", None);
    let rows: Vec<_> = degraded().finish(&vec![Ok(BootPath::from_text("/m"))]).iter().map(summary).collect();
    assert_eq!(rows, [waiting, row("/dev/a (2×bcachefs)", "/dev/a", "mounted", Some("/m"))]);
    let failed = Err(Error::Io(failure(5, "I/O error")));
    let rows: Vec<_> = degraded().finish(&vec![failed]).iter().map(summary).collect();
    assert_eq!(rows[1], row("/dev/a (2×bcachefs)", "/dev/a", "error: I/O error", None));
}

#[test]
fn failing_tools_are_quoted() {
    let e: Result<(), Error> = Err(tool_error("cryptsetup", b" No key\xff available.\n"));
    assert_eq!(complaint(e), "cryptsetup: No key\u{fffd} available.");
    let e: Result<(), Error> = Err(scan_error(&BootPath::from_text("/dev/a"), b"busy"));
    assert_eq!(complaint(e), "btrfs device scan /dev/a: busy");
}

#[test]
fn unlocking_depends_on_the_filesystem() {
    let dev = BootPath::from_text("/dev/sda2");
    match unlock_and_mount(&dev, Some(FsType::Luks)).unwrap() {
        UnlockPlan::Luks { mapper_name, mapped } => {
            assert_eq!((mapper_name.as_str(), mapped.to_text().as_str()), ("kexec-sda2", "/dev/mapper/kexec-sda2"));
        }
        other => panic!("{other:?}"),
    }
    assert!(matches!(unlock_and_mount(&dev, Some(FsType::Bcachefs)), Ok(UnlockPlan::Bcachefs)));
    assert_eq!(complaint(unlock_and_mount(&dev, Some(FsType::Ext4))), "ext4 is not encrypted");
    assert_eq!(complaint(unlock_and_mount(&dev, None)), "unknown filesystem");
    assert_eq!(complaint(inner_filesystem(None)), "no filesystem inside LUKS container");
    assert_eq!(inner_filesystem(Some(FsType::Xfs)).unwrap(), FsType::Xfs);
}

// --- Discovery ---

fn read_image(image: &[u8], w: &Window) -> ReadOutcome {
    let at = w.offset as usize;
    if image.len() < at + w.len {
        ReadOutcome::Unreadable(failure(5, "end of device"))
    } else {
        ReadOutcome::Bytes(image[at..at + w.len].to_vec())
    }
}

fn scanned(name: &str, image: &[u8]) -> ScannedDevice {
    let probe = Ok(probe_windows().iter().map(|w| read_image(image, w)).collect());
    let ft = probe_fs_type(&probe).unwrap();
    let member = Ok(match ft {
        Some(ft) => member_windows(ft).iter().map(|w| read_image(image, w)).collect(),
        None => vec![],
    });
    let label = Ok(match ft.and_then(label_window) {
        Some(w) => read_image(image, &w),
        None => ReadOutcome::Bytes(vec![]),
    });
    ScannedDevice { device: device(name), probe, member, label }
}

fn put(image: &mut [u8], at: usize, bytes: &[u8]) {
    image[at..at + bytes.len()].copy_from_slice(bytes);
}

fn ext4(label: &str) -> Vec<u8> {
    let mut image = vec![0; 4096];
    put(&mut image, 1024 + 0x38, &[0x53, 0xef]);
    put(&mut image, 1024 + 0x78, label.as_bytes());
    image
}

fn luks() -> Vec<u8> {
    let mut image = vec![0; 4096];
    put(&mut image, 0, b"LUKS\xba\xbe");
    image
}

fn bcachefs() -> Vec<u8> {
    let mut image = vec![0; 8192];
    put(&mut image, 0x1018, &[0xf6, 0x73, 0x85, 0xc6]);
    image
}

fn btrfs(uuid: u8, count: u64) -> Vec<u8> {
    let mut image = vec![0; 0x11000];
    put(&mut image, 0x10040, b"_BHRfS_M");
    put(&mut image, 0x10020, &[uuid; 16]);
    put(&mut image, 0x10088, &count.to_le_bytes());
    image
}

fn no_names() -> DiskNames {
    DiskNames { part_labels: vec![], uuids: vec![] }
}

fn summary(s: &Source) -> (String, String, String, Option<String>) {
    let state = match &s.state {
        SourceState::Mounted => "mounted".to_string(),
        SourceState::Encrypted => "encrypted".to_string(),
        SourceState::Static => "static".to_string(),
        SourceState::Error(e) => format!("error: {e}"),
    };
    (s.label.clone(), s.device.to_text(), state, s.mount_point.as_ref().map(|p| p.to_text()))
}

fn row(label: &str, device: &str, state: &str, mount: Option<&str>) -> (String, String, String, Option<String>) {
    (label.into(), device.into(), state.into(), mount.map(String::from))
}

#[test]
fn sources_come_out_locked_then_groups_then_singles_then_unknown() {
    let scans = vec![
        scanned("sda1", &ext4("root")),
        scanned("sda2", &luks()),
        scanned("sda3", &[0; 4096]),
        scanned("sdb1", &btrfs(9, 2)),
        scanned("sdb2", &bcachefs()),
        scanned("sdb3", &bcachefs()),
        scanned("sdc1", &btrfs(9, 2)),
        scanned("sdd1", &ext4("")),
    ];
    let d = Discovery::start(scans, no_names(), None);
    assert!(!d.needs_wait());
    assert_eq!(
        d.mount_jobs(),
        [MountJob::Group(0), MountJob::Single(0), MountJob::Single(1), MountJob::Single(2), MountJob::Single(3)]
    );
    let mp = |n: &str| Ok(BootPath::from_text(&format!("/mnt/kexec-menu/{n}")));
    let outcomes = vec![
        mp("sdb1"),
        mp("sda1"),
        Err(Error::Io(failure(ENOKEY, "Required key not available"))),
        Err(Error::Io(failure(5, "I/O error"))),
        Err(Error::Io(failure(ENOKEY, "Required key not available"))),
    ];
    let rows: Vec<_> = d.finish(&outcomes).iter().map(summary).collect();
    assert_eq!(
        rows,
        [
            row("sda2", "/dev/sda2", "encrypted", None),
            row("sdb1 (2×btrfs)", "/dev/sdb1", "mounted", Some("/mnt/kexec-menu/sdb1")),
            row("root", "/dev/sda1", "mounted", Some("/mnt/kexec-menu/sda1")),
            row("sdb2", "/dev/sdb2", "encrypted", None),
            row("sdb3", "/dev/sdb3", "error: I/O error", None),
            row("sdd1", "/dev/sdd1", "error: Required key not available", None),
            row("sda3", "/dev/sda3", "error: unknown filesystem", None),
        ]
    );
}

#[test]
fn incomplete_groups_are_waited_for() {
    let first = vec![scanned("sdb1", &btrfs(9, 2)), scanned("sda1", &ext4("root"))];
    let mut d = Discovery::start(first, no_names(), None);
    assert!(d.needs_wait());
    d.rescan(&vec![scanned("sdb1", &btrfs(9, 2))]);
    assert!(d.needs_wait());
    d.rescan(&vec![
        scanned("sdb1", &btrfs(9, 2)),
        scanned("sdc1", &btrfs(9, 2)),
        scanned("sdd1", &btrfs(8, 2)),
        scanned("sde1", &ext4("new")),
    ]);
    assert!(!d.needs_wait());
    assert_eq!(d.groups.len(), 1);
    let names: Vec<String> = d.groups[0].devices.iter().map(|m| m.0.to_text()).collect();
    assert_eq!(names, ["/dev/sdb1", "/dev/sdc1"]);
    assert_eq!(d.singles.len(), 1);
    assert_eq!(d.mount_jobs(), [MountJob::Group(0), MountJob::Single(0)]);
}

#[test]
fn complete_groups_take_no_more_devices() {
    let first = vec![
        scanned("sdb1", &btrfs(9, 2)),
        scanned("sdc1", &btrfs(9, 2)),
        scanned("sdd1", &btrfs(8, 3)),
    ];
    let mut d = Discovery::start(first, no_names(), None);
    d.rescan(&vec![scanned("sde1", &btrfs(9, 2)), scanned("sdf1", &btrfs(8, 3))]);
    let counts: Vec<usize> = d.groups.iter().map(|g| g.devices.len()).collect();
    assert_eq!(counts, [2, 2]);
}

#[test]
fn waiting_ends_after_five_tries() {
    let mut d = Discovery::start(vec![scanned("sdb1", &btrfs(9, 2))], no_names(), None);
    let mut tries = 0;
    while d.needs_wait() {
        d.rescan(&vec![]);
        tries += 1;
    }
    assert_eq!(tries, 5);
    assert!(d.mount_jobs().is_empty());
    let rows: Vec<_> = d.finish(&vec![]).iter().map(summary).collect();
    assert_eq!(rows, [row("sdb1 (2×btrfs)", "/dev/sdb1", "error: incomplete: 1/2 devices", None)]);
}

#[test]
fn refused_devices_are_not_looked_at() {
    let scans = vec![scanned("sda1", &ext4("root")), scanned("sdb1", &luks())];
    let d = Discovery::start(scans, no_names(), Some("sda*".into()));
    assert!(d.locked.is_empty());
    assert_eq!(d.singles.len(), 1);
}

#[test]
fn unknown_devices_are_shown_with_an_error() {
    let gone = |name: &str| ScannedDevice {
        device: device(name),
        probe: Err(failure(2, "gone")),
        member: Err(failure(2, "gone")),
        label: Err(failure(2, "gone")),
    };
    let names =
        || DiskNames { part_labels: vec![link("swap", "../../sdb1")], uuids: vec![link("id", "../../sda1")] };
    let scans = || vec![gone("sda1"), scanned("sdb1", &[0; 64]), gone("sdc1")];
    let d = Discovery::start(scans(), names(), None);
    assert!(d.locked.is_empty() && d.singles.is_empty() && d.groups.is_empty());
    let rows: Vec<_> = d.finish(&vec![]).iter().map(summary).collect();
    assert_eq!(
        rows,
        [
            row("id", "/dev/sda1", "error: gone", None),
            row("swap", "/dev/sdb1", "error: unknown filesystem", None),
            row("sdc1", "/dev/sdc1", "error: gone", None),
        ]
    );
    let d = Discovery::start(scans(), names(), Some("sdb*".into()));
    let rows: Vec<_> = d.finish(&vec![]).iter().map(summary).collect();
    assert_eq!(rows, [row("swap", "/dev/sdb1", "error: unknown filesystem", None)]);
}

#[test]
fn an_opened_device_has_to_have_a_filesystem() {
    assert_eq!(open_filesystem(Ok(Some(FsType::Ext4))).unwrap(), FsType::Ext4);
    assert_eq!(complaint(open_filesystem(Ok(None))), "unknown filesystem");
    match open_filesystem(Err(Error::Io(failure(5, "I/O error")))) {
        Err(Error::Io(f)) => assert_eq!((f.code, f.message.as_str()), (Some(5), "I/O error")),
        other => panic!("{other:?}"),
    }
}

#[test]
fn names_of_devices_label_sources() {
    let names = DiskNames {
        part_labels: vec![link("system", "../../sdb1")],
        uuids: vec![link("1234-ABCD", "../../sda2")],
    };
    let scans = vec![scanned("sda2", &luks()), scanned("sdb1", &ext4("root"))];
    let d = Discovery::start(scans, names, None);
    assert_eq!(d.locked[0].label, "1234-ABCD");
    let sources = d.finish(&vec![Ok(BootPath::from_text("/m"))]);
    assert_eq!(sources[1].label, "system");
    assert!(sources[1].passphrase.is_none());
}
