//! Sources: how they are found on the block devices, mounted and unlocked.

use vstd::prelude::*;
use vstd::utf8::encode_utf8;

use crate::devices::{
    best_label, device_allowed, first_name, is_allowed, link_name, BlockDevice, DiskLink,
};
use crate::json::complains;
use crate::mount::{
    are_apart, count_place, device_groups, device_view, device_views, find_group, first_path_order,
    fit_windows, fs_label, fs_name, group_multi_device, group_of, group_of_finds,
    groups_have_devices, has_devices, index_order, is_complete_group, is_of, is_single, membership,
    opt_member, ordered_group, probe_fs_type, probed, raw_groups, read_fs_label,
    read_multi_device_info, same_uuid, sort_devices, uuid_place, DeviceGroup, DeviceView, FsType,
    GroupView, MemberView, MultiDeviceInfo, ProbeResult, ProbeView, ReadOutcome, PROBE_COUNT,
};
use crate::path::{file_name_of, joined, path_text, same_path, BootPath};
use crate::sort::{pairwise, sorted, sorted_keeps_elements, sorted_keeps_property, views};
use crate::text::{
    copy_bytes, decimal, lossy_text, opt_text, push_bytes, push_decimal, trim_text, trimmed,
    utf8_lossy,
};
use crate::types::{
    source_views, Error, ErrorView, IoFailure, Source, SourceState, SourceStateView, SourceView,
};

verus! {

// --- What is read from the devices ---

/// A block device and what was read from it: the places of `probe_windows`, and,
/// where they told the type of its filesystem, those of `member_windows` and
/// `label_window`.
#[derive(Debug)]
pub struct ScannedDevice {
    pub device: BlockDevice,
    pub probe: Result<Vec<ReadOutcome>, IoFailure>,
    pub member: Result<Vec<ReadOutcome>, IoFailure>,
    pub label: Result<ReadOutcome, IoFailure>,
}

/// The type of the filesystem on a device, if it can be told.
pub open spec fn scanned_type(s: ScannedDevice) -> Option<FsType> {
    match probed(s.probe) {
        Ok(t) => t,
        Err(_) => None,
    }
}

/// Whether as much was read as was asked for.
pub open spec fn is_whole(s: ScannedDevice) -> bool {
    &&& s.probe matches Ok(v) ==> v@.len() == PROBE_COUNT
    &&& scanned_type(s) == Some(FsType::Btrfs) && s.member is Ok ==> fit_windows(
        s.member->Ok_0@,
        seq![uuid_place(), count_place()],
    )
}

/// Whether as much was read of each device as was asked for.
pub open spec fn are_whole(scans: Seq<ScannedDevice>) -> bool {
    forall|i: int| 0 <= i < scans.len() ==> is_whole(#[trigger] scans[i])
}

/// The type of the filesystem on a device that may be used.
pub open spec fn usable_type(s: ScannedDevice, whitelist: Option<Seq<char>>) -> Option<FsType> {
    if is_allowed(s.device@.name, whitelist) {
        scanned_type(s)
    } else {
        None
    }
}

/// The membership of a device in a filesystem of several.
pub open spec fn scanned_member(s: ScannedDevice, ft: FsType) -> Option<MemberView> {
    match membership(ft, s.member) {
        Ok(m) => m,
        Err(_) => None,
    }
}

/// The label in the superblock of a device.
pub open spec fn scanned_label(s: ScannedDevice, ft: FsType) -> Option<Seq<char>> {
    match fs_label(ft, s.label) {
        Ok(l) => l,
        Err(_) => None,
    }
}

/// The names that /dev/disk has for devices.
#[derive(Debug)]
pub struct DiskNames {
    pub part_labels: Vec<DiskLink>,
    pub uuids: Vec<DiskLink>,
}

/// The label of a source on a device.
pub open spec fn device_label(s: ScannedDevice, ft: FsType, names: DiskNames) -> Seq<char> {
    first_name(
        link_name(names.part_labels@, s.device@.name, 0),
        scanned_label(s, ft),
        link_name(names.uuids@, s.device@.name, 0),
        s.device@.name,
    )
}

fn label_device(s: &ScannedDevice, ft: FsType, names: &DiskNames) -> (r: String)
    ensures
        r@ == device_label(*s, ft, *names),
{
    let inner = match read_fs_label(ft, &s.label) {
        Ok(l) => l,
        Err(_) => None,
    };
    best_label(&s.device, inner, names.part_labels.as_slice(), names.uuids.as_slice())
}

fn type_of_device(s: &ScannedDevice, whitelist: &Option<String>) -> (r: Option<FsType>)
    requires
        is_whole(*s),
    ensures
        r == usable_type(*s, opt_text(*whitelist)),
{
    if !device_allowed(s.device.name.as_str(), whitelist) {
        return None;
    }
    match probe_fs_type(&s.probe) {
        Ok(t) => t,
        Err(_) => None,
    }
}

fn member_of_device(s: &ScannedDevice, ft: FsType) -> (r: Option<MultiDeviceInfo>)
    requires
        is_whole(*s),
        scanned_type(*s) == Some(ft),
    ensures
        opt_member(r) == scanned_member(*s, ft),
{
    match read_multi_device_info(ft, &s.member) {
        Ok(m) => m,
        Err(_) => None,
    }
}

// --- Probing ---

/// A locked source.
pub open spec fn locked_source(label: Seq<char>, device: Seq<u8>) -> SourceView {
    SourceView {
        label,
        device,
        state: SourceStateView::Encrypted,
        mount_point: None,
        passphrase: None,
    }
}

/// The encrypted containers among the first `n` devices.
pub open spec fn luks_sources(
    scans: Seq<ScannedDevice>,
    names: DiskNames,
    whitelist: Option<Seq<char>>,
    n: int,
) -> Seq<SourceView>
    decreases n,
{
    if n <= 0 {
        Seq::empty()
    } else if usable_type(scans[n - 1], whitelist) == Some(FsType::Luks) {
        luks_sources(scans, names, whitelist, n - 1).push(
            locked_source(
                device_label(scans[n - 1], FsType::Luks, names),
                scans[n - 1].device@.path,
            ),
        )
    } else {
        luks_sources(scans, names, whitelist, n - 1)
    }
}

/// The filesystems among the first `n` devices.
pub open spec fn probes(
    scans: Seq<ScannedDevice>,
    whitelist: Option<Seq<char>>,
    n: int,
) -> Seq<ProbeView>
    decreases n,
{
    if n <= 0 {
        Seq::empty()
    } else {
        let s = scans[n - 1];
        match usable_type(s, whitelist) {
            Some(ft) => if ft == FsType::Luks {
                probes(scans, whitelist, n - 1)
            } else {
                probes(scans, whitelist, n - 1).push(
                    ProbeView { path: s.device@.path, fstype: ft, multi: scanned_member(s, ft) },
                )
            },
            None => probes(scans, whitelist, n - 1),
        }
    }
}

/// What is said of a device whose filesystem is not known.
pub open spec fn unknown_text(s: ScannedDevice) -> Seq<char> {
    match probed(s.probe) {
        Ok(_) => "unknown filesystem"@,
        Err(e) => e.text(),
    }
}

/// The source of a device whose filesystem is not known. It is shown with what is
/// wrong, and not mounted.
pub open spec fn unknown_source(s: ScannedDevice, names: DiskNames) -> SourceView {
    SourceView {
        label: first_name(
            link_name(names.part_labels@, s.device@.name, 0),
            None,
            link_name(names.uuids@, s.device@.name, 0),
            s.device@.name,
        ),
        device: s.device@.path,
        state: SourceStateView::Error(unknown_text(s)),
        mount_point: None,
        passphrase: None,
    }
}

/// Whether a device may be used but its filesystem is not known.
pub open spec fn is_unknown(s: ScannedDevice, whitelist: Option<Seq<char>>) -> bool {
    is_allowed(s.device@.name, whitelist) && scanned_type(s) is None
}

/// The devices, among the first `n`, whose filesystem is not known.
pub open spec fn unknown_sources(
    scans: Seq<ScannedDevice>,
    names: DiskNames,
    whitelist: Option<Seq<char>>,
    n: int,
) -> Seq<SourceView>
    decreases n,
{
    if n <= 0 {
        Seq::empty()
    } else if is_unknown(scans[n - 1], whitelist) {
        unknown_sources(scans, names, whitelist, n - 1).push(unknown_source(scans[n - 1], names))
    } else {
        unknown_sources(scans, names, whitelist, n - 1)
    }
}

fn find_unknown(s: &ScannedDevice, names: &DiskNames, whitelist: &Option<String>) -> (r: Option<
    Source,
>)
    requires
        is_whole(*s),
    ensures
        match r {
            Some(src) => is_unknown(*s, opt_text(*whitelist)) && src@ == unknown_source(*s, *names),
            None => !is_unknown(*s, opt_text(*whitelist)),
        },
{
    if !device_allowed(s.device.name.as_str(), whitelist) {
        return None;
    }
    let text = match probe_fs_type(&s.probe) {
        Ok(Some(_)) => {
            return None;
        },
        Ok(None) => "unknown filesystem".to_owned(),
        Err(e) => e.to_text(),
    };
    Some(
        Source {
            label: best_label(
                &s.device,
                None,
                names.part_labels.as_slice(),
                names.uuids.as_slice(),
            ),
            device: s.device.path.clone(),
            state: SourceState::Error(text),
            mount_point: None,
            passphrase: None,
        },
    )
}

/// The devices whose filesystem is not known.
fn find_all_unknown(
    scans: &Vec<ScannedDevice>,
    names: &DiskNames,
    whitelist: &Option<String>,
) -> (r: Vec<Source>)
    requires
        are_whole(scans@),
    ensures
        source_views(r@) == unknown_sources(
            scans@,
            *names,
            opt_text(*whitelist),
            scans@.len() as int,
        ),
{
    let mut out: Vec<Source> = Vec::new();
    let mut i: usize = 0;
    assert(source_views(out@) =~= Seq::<SourceView>::empty());
    while i < scans.len()
        invariant
            i <= scans@.len(),
            are_whole(scans@),
            source_views(out@) == unknown_sources(
                scans@,
                *names,
                opt_text(*whitelist),
                i as int,
            ),
        decreases scans@.len() - i,
    {
        assert(is_whole(scans@[i as int]));
        if let Some(source) = find_unknown(&scans[i], names, whitelist) {
            let ghost before = out@;
            out.push(source);
            assert(source_views(out@) =~= source_views(before).push(source@));
        }
        i = i + 1;
    }
    out
}

proof fn lemma_unknown_shown(
    scans: Seq<ScannedDevice>,
    names: DiskNames,
    whitelist: Option<Seq<char>>,
    n: int,
    i: int,
)
    requires
        0 <= i < n,
        is_unknown(scans[i], whitelist),
    ensures
        unknown_sources(scans, names, whitelist, n).contains(unknown_source(scans[i], names)),
    decreases n,
{
    let all = unknown_sources(scans, names, whitelist, n);
    if i < n - 1 {
        lemma_unknown_shown(scans, names, whitelist, n - 1, i);
        let before = unknown_sources(scans, names, whitelist, n - 1);
        let k = choose|k: int|
            0 <= k < before.len() && before[k] == unknown_source(scans[i], names);
        assert(all[k] == before[k]);
    } else {
        assert(all.last() == unknown_source(scans[i], names));
    }
}

/// A device that may be used but whose filesystem is not known is among the
/// sources, with an error and not mounted.
pub proof fn unknown_devices_are_shown(
    scans: Seq<ScannedDevice>,
    names: DiskNames,
    whitelist: Option<Seq<char>>,
    i: int,
)
    requires
        0 <= i < scans.len(),
        is_unknown(scans[i], whitelist),
    ensures
        exists|src: SourceView| #[trigger]
            unknown_sources(scans, names, whitelist, scans.len() as int).contains(src)
                && src.device == scans[i].device@.path && src.state is Error
                && src.mount_point is None,
{
    lemma_unknown_shown(scans, names, whitelist, scans.len() as int, i);
    let src = unknown_source(scans[i], names);
    assert(src.device == scans[i].device@.path);
}

/// Probe all block devices, returning LUKS sources and the filesystems on the
/// others.
pub fn probe_all_devices(
    scans: &Vec<ScannedDevice>,
    names: &DiskNames,
    whitelist: &Option<String>,
) -> (r: (Vec<Source>, Vec<ProbeResult>))
    requires
        are_whole(scans@),
    ensures
        source_views(r.0@) == luks_sources(
            scans@,
            *names,
            opt_text(*whitelist),
            scans@.len() as int,
        ),
        views(r.1@) == probes(scans@, opt_text(*whitelist), scans@.len() as int),
{
    let ghost w = opt_text(*whitelist);
    let mut locked: Vec<Source> = Vec::new();
    let mut found: Vec<ProbeResult> = Vec::new();
    let mut i: usize = 0;
    assert(source_views(locked@) =~= Seq::<SourceView>::empty());
    assert(views(found@) =~= Seq::<ProbeView>::empty());
    while i < scans.len()
        invariant
            i <= scans@.len(),
            are_whole(scans@),
            w == opt_text(*whitelist),
            source_views(locked@) == luks_sources(scans@, *names, w, i as int),
            views(found@) == probes(scans@, w, i as int),
        decreases scans@.len() - i,
    {
        let s = &scans[i];
        assert(is_whole(scans@[i as int]));
        if let Some(ft) = type_of_device(s, whitelist) {
            if ft == FsType::Luks {
                let ghost before = locked@;
                let source = Source {
                    label: label_device(s, ft, names),
                    device: s.device.path.clone(),
                    state: SourceState::Encrypted,
                    mount_point: None,
                    passphrase: None,
                };
                locked.push(source);
                assert(source_views(locked@) =~= source_views(before).push(source@));
            } else {
                let ghost before = found@;
                let p = ProbeResult {
                    path: s.device.path.clone(),
                    fstype: ft,
                    multi: member_of_device(s, ft),
                };
                found.push(p);
                assert(views(found@) =~= views(before).push(p@));
            }
        }
        i = i + 1;
    }
    (locked, found)
}

/// Whether a group that is not complete is of the given filesystem.
pub open spec fn is_awaited(groups: Seq<GroupView>, fs_uuid: Seq<u8>, fstype: FsType) -> bool {
    exists|i: int|
        0 <= i < groups.len() && !is_complete_group(#[trigger] groups[i]) && is_of(
            groups[i],
            fs_uuid,
            fstype,
        )
}

/// The devices, among the first `n`, of filesystems that are not complete.
pub open spec fn awaited_probes(
    groups: Seq<GroupView>,
    scans: Seq<ScannedDevice>,
    whitelist: Option<Seq<char>>,
    n: int,
) -> Seq<ProbeView>
    decreases n,
{
    if n <= 0 {
        Seq::empty()
    } else {
        let s = scans[n - 1];
        let before = awaited_probes(groups, scans, whitelist, n - 1);
        match usable_type(s, whitelist) {
            Some(ft) => match scanned_member(s, ft) {
                Some(m) => if is_awaited(groups, m.fs_uuid, ft) {
                    before.push(ProbeView { path: s.device@.path, fstype: ft, multi: Some(m) })
                } else {
                    before
                },
                None => before,
            },
            None => before,
        }
    }
}

fn awaits(groups: &Vec<DeviceGroup>, m: &MultiDeviceInfo, ft: FsType) -> (r: bool)
    ensures
        r == is_awaited(views(groups@), m@.fs_uuid, ft),
{
    let ghost gv = views(groups@);
    let mut i: usize = 0;
    while i < groups.len()
        invariant
            i <= groups@.len(),
            gv == views(groups@),
            forall|k: int|
                0 <= k < i ==> is_complete_group(#[trigger] gv[k]) || !is_of(
                    gv[k],
                    m@.fs_uuid,
                    ft,
                ),
        decreases groups@.len() - i,
    {
        assert(gv[i as int] == groups@[i as int]@);
        if !groups[i].is_complete() && same_uuid(&groups[i].fs_uuid, &m.fs_uuid)
            && groups[i].fstype == ft {
            return true;
        }
        i = i + 1;
    }
    false
}

/// Re-probe only devices relevant to incomplete groups.
pub fn reprobe_for_groups(
    groups: &Vec<DeviceGroup>,
    scans: &Vec<ScannedDevice>,
    whitelist: &Option<String>,
) -> (r: Vec<ProbeResult>)
    requires
        are_whole(scans@),
    ensures
        views(r@) == awaited_probes(
            views(groups@),
            scans@,
            opt_text(*whitelist),
            scans@.len() as int,
        ),
{
    let ghost w = opt_text(*whitelist);
    let ghost gv = views(groups@);
    let mut found: Vec<ProbeResult> = Vec::new();
    let mut i: usize = 0;
    assert(views(found@) =~= Seq::<ProbeView>::empty());
    while i < scans.len()
        invariant
            i <= scans@.len(),
            are_whole(scans@),
            w == opt_text(*whitelist),
            gv == views(groups@),
            views(found@) == awaited_probes(gv, scans@, w, i as int),
        decreases scans@.len() - i,
    {
        let s = &scans[i];
        assert(is_whole(scans@[i as int]));
        if let Some(ft) = type_of_device(s, whitelist) {
            if let Some(m) = member_of_device(s, ft) {
                if awaits(groups, &m, ft) {
                    let ghost before = found@;
                    let p = ProbeResult {
                        path: s.device.path.clone(),
                        fstype: ft,
                        multi: Some(m),
                    };
                    found.push(p);
                    assert(views(found@) =~= views(before).push(p@));
                }
            }
        }
        i = i + 1;
    }
    found
}

// --- Putting groups together ---

/// Whether one of the devices has the given path.
pub open spec fn has_device(devices: Seq<DeviceView>, path: Seq<u8>) -> bool {
    exists|i: int| 0 <= i < devices.len() && same_path((#[trigger] devices[i]).path, path)
}

/// The devices with those of the first `n` others that are not among them yet.
pub open spec fn devices_with(
    devices: Seq<DeviceView>,
    others: Seq<DeviceView>,
    n: int,
) -> Seq<DeviceView>
    decreases n,
{
    if n <= 0 {
        devices
    } else {
        let now = devices_with(devices, others, n - 1);
        if has_device(now, others[n - 1].path) {
            now
        } else {
            now.push(others[n - 1])
        }
    }
}

/// A group with the devices of another.
pub open spec fn merged_group(g: GroupView, other: GroupView) -> GroupView {
    GroupView {
        devices: sorted(
            devices_with(g.devices, other.devices, other.devices.len() as int),
            index_order(),
        ),
        ..g
    }
}

/// The groups, each with the devices of those among the first `n` others that are
/// of the same filesystem.
pub open spec fn merged(groups: Seq<GroupView>, others: Seq<GroupView>, n: int) -> Seq<GroupView>
    decreases n,
{
    if n <= 0 {
        groups
    } else {
        let now = merged(groups, others, n - 1);
        let other = others[n - 1];
        match group_of(now, other.fs_uuid, other.fstype, 0) {
            Some(i) => now.update(i, merged_group(now[i], other)),
            None => now,
        }
    }
}

fn contains_device(devices: &Vec<(BootPath, u32)>, path: &BootPath) -> (r: bool)
    ensures
        r == has_device(device_views(devices@), path@),
{
    let ghost d = device_views(devices@);
    let mut i: usize = 0;
    while i < devices.len()
        invariant
            i <= devices@.len(),
            d == device_views(devices@),
            forall|k: int| 0 <= k < i ==> !same_path((#[trigger] d[k]).path, path@),
        decreases devices@.len() - i,
    {
        assert(d[i as int] == device_view(devices@[i as int]));
        if devices[i].0.is_same(path) {
            return true;
        }
        i = i + 1;
    }
    false
}

fn merge_devices(g: &mut DeviceGroup, other: &DeviceGroup)
    ensures
        final(g)@ == merged_group(old(g)@, other@),
{
    let ghost start = g@;
    let ghost o = other@.devices;
    let mut i: usize = 0;
    while i < other.devices.len()
        invariant
            i <= other.devices@.len(),
            o == other@.devices,
            device_views(g.devices@) == devices_with(start.devices, o, i as int),
            g.fstype == old(g).fstype,
            g.fs_uuid == old(g).fs_uuid,
            g.nr_expected == old(g).nr_expected,
        decreases other.devices@.len() - i,
    {
        let ghost before = g.devices@;
        assert(o[i as int] == device_view(other.devices@[i as int]));
        if !contains_device(&g.devices, &other.devices[i].0) {
            g.devices.push((other.devices[i].0.clone(), other.devices[i].1));
            assert(device_views(g.devices@) =~= device_views(before).push(o[i as int]));
        }
        i = i + 1;
    }
    let devices = sort_devices(&g.devices);
    g.devices = devices;
}

fn merge_groups(groups: &mut Vec<DeviceGroup>, others: &Vec<DeviceGroup>)
    ensures
        views(final(groups)@) == merged(
            views(old(groups)@),
            views(others@),
            others@.len() as int,
        ),
{
    let ghost start = views(groups@);
    let ghost o = views(others@);
    let mut i: usize = 0;
    while i < others.len()
        invariant
            i <= others@.len(),
            o == views(others@),
            views(groups@) == merged(start, o, i as int),
        decreases others@.len() - i,
    {
        let other = &others[i];
        assert(o[i as int] == other@);
        let ghost before = groups@;
        if let Some(k) = find_group(groups, &other.fs_uuid, other.fstype) {
            assert(views(before)[k as int] == before[k as int]@);
            merge_devices(&mut groups[k], other);
            assert(views(groups@) =~= views(before).update(
                k as int,
                merged_group(views(before)[k as int], other@),
            ));
        }
        i = i + 1;
    }
}

/// The groups after the devices have been looked at once more.
pub open spec fn after_rescan(
    groups: Seq<GroupView>,
    scans: Seq<ScannedDevice>,
    whitelist: Option<Seq<char>>,
) -> Seq<GroupView> {
    let more = device_groups(awaited_probes(groups, scans, whitelist, scans.len() as int));
    merged(groups, more, more.len() as int)
}

// --- Mounting ---

/// The file name of a device, or "unknown".
pub open spec fn plain_name(dev: Seq<u8>) -> Seq<char> {
    match file_name_of(dev) {
        Some(n) => utf8_lossy(n),
        None => "unknown"@,
    }
}

fn name_of_device(dev: &BootPath) -> (r: String)
    ensures
        r@ == plain_name(dev@),
{
    match dev.file_name() {
        Some(n) => lossy_text(n.as_slice()),
        None => "unknown".to_owned(),
    }
}

/// Where a device is mounted.
pub open spec fn mount_place(dev: Seq<u8>) -> Seq<u8> {
    joined(encode_utf8("/mnt/kexec-menu"@), encode_utf8(plain_name(dev)))
}

/// Where a device is mounted.
pub fn mount_point_of(dev: &BootPath) -> (r: BootPath)
    ensures
        r@ == mount_place(dev@),
{
    BootPath::from_text("/mnt/kexec-menu").join(name_of_device(dev).as_str().as_bytes())
}

/// What mount(2) is called with. The paths end in a zero byte and have none
/// before.
#[derive(Debug)]
pub struct MountArgs {
    pub source: Vec<u8>,
    pub target: Vec<u8>,
    pub fstype: &'static str,
}

/// A path as the kernel takes it: with a zero byte at the end, and none before.
pub fn path_to_cstring(p: &BootPath) -> (r: Result<Vec<u8>, Error>)
    ensures
        match r {
            Ok(v) => !p@.contains(0u8) && v@ == p@.push(0u8),
            Err(e) => p@.contains(0u8) && complains(e, "path contains NUL byte"@),
        },
{
    let mut out: Vec<u8> = Vec::new();
    let mut i: usize = 0;
    while i < p.bytes.len()
        invariant
            i <= p@.len(),
            p@ == p.bytes@,
            out@ == p@.take(i as int),
            forall|k: int| 0 <= k < i ==> p@[k] != 0,
        decreases p@.len() - i,
    {
        if p.bytes[i] == 0 {
            assert(p@.contains(p@[i as int]));
            return Err(Error::Parse("path contains NUL byte".to_owned()));
        }
        out.push(p.bytes[i]);
        assert(out@ =~= p@.take(i + 1));
        i = i + 1;
    }
    assert(p@.take(i as int) =~= p@);
    out.push(0);
    Ok(out)
}

/// Why a device cannot be mounted, if that is known before trying: a path has a
/// zero byte in it, or the filesystem is a container.
pub open spec fn mount_refusal(dev: Seq<u8>, target: Seq<u8>, ft: FsType) -> Option<Seq<char>> {
    if dev.contains(0u8) || target.contains(0u8) {
        Some("path contains NUL byte"@)
    } else if ft == FsType::Luks {
        Some(fs_name(ft) + " is not directly mountable"@)
    } else {
        None
    }
}

/// What mounting a device read-only takes. The mount point has to be there
/// before.
pub fn mount_ro(dev: &BootPath, mount_point: &BootPath, fstype: FsType) -> (r: Result<
    MountArgs,
    Error,
>)
    ensures
        match r {
            Ok(args) => mount_refusal(dev@, mount_point@, fstype) is None && args.source@
                == dev@.push(0u8) && args.target@ == mount_point@.push(0u8) && args.fstype@
                == fs_name(fstype),
            Err(e) => mount_refusal(dev@, mount_point@, fstype) matches Some(m) && complains(e, m),
        },
{
    let source = match path_to_cstring(dev) {
        Ok(v) => v,
        Err(e) => {
            return Err(e);
        },
    };
    let target = match path_to_cstring(mount_point) {
        Ok(v) => v,
        Err(e) => {
            return Err(e);
        },
    };
    match fstype.mount_type() {
        Some(name) => Ok(MountArgs { source, target, fstype: name }),
        None => {
            let mut m = fstype.as_str().to_owned();
            m.append(" is not directly mountable");
            Err(Error::Parse(m))
        },
    }
}

/// What mounting a multi-device filesystem group read-only takes: the devices that
/// have to be made known to the kernel first, in order, what is then mounted and
/// where, and the mount options.
#[derive(Debug)]
pub struct GroupMount {
    pub scan: Vec<BootPath>,
    pub source: BootPath,
    pub mount_point: BootPath,
    pub options: &'static str,
}

/// The model of what mounting a group takes.
pub struct GroupMountView {
    pub scan: Seq<Seq<u8>>,
    pub source: Seq<u8>,
    pub mount_point: Seq<u8>,
    pub options: Seq<char>,
}

impl View for GroupMount {
    type V = GroupMountView;

    open spec fn view(&self) -> GroupMountView {
        GroupMountView {
            scan: self.scan@.map_values(|p: BootPath| p@),
            source: self.source@,
            mount_point: self.mount_point@,
            options: self.options@,
        }
    }
}

/// The first `n` devices of a group, separated by colons.
pub open spec fn device_list(devices: Seq<DeviceView>, n: int) -> Seq<u8>
    decreases n,
{
    if n <= 0 {
        Seq::empty()
    } else if n == 1 {
        devices[0].path
    } else {
        device_list(devices, n - 1) + seq![58u8] + devices[n - 1].path
    }
}

/// What mounting a group takes, or why it cannot be done. Btrfs is mounted from its
/// first device, once the kernel knows them all. Bcachefs is mounted from all its
/// devices, in degraded mode if some are missing.
pub open spec fn group_mount(g: GroupView) -> Result<GroupMountView, Seq<char>> {
    let none = Seq::<Seq<u8>>::empty();
    let mount_point = mount_place(g.devices[0].path);
    match g.fstype {
        FsType::Btrfs => Ok(
            GroupMountView {
                scan: g.devices.map_values(|d: DeviceView| d.path),
                source: g.devices[0].path,
                mount_point,
                options: ""@,
            },
        ),
        FsType::Bcachefs => Ok(
            GroupMountView {
                scan: none,
                source: device_list(g.devices, g.devices.len() as int),
                mount_point,
                options: if is_complete_group(g) {
                    ""@
                } else {
                    "degraded"@
                },
            },
        ),
        _ => Err(fs_name(g.fstype) + " does not support multi-device mount"@),
    }
}

fn list_devices(group: &DeviceGroup) -> (r: BootPath)
    requires
        group.devices@.len() > 0,
    ensures
        r@ == device_list(group@.devices, group@.devices.len() as int),
{
    let ghost d = group@.devices;
    assert(d[0] == device_view(group.devices@[0]));
    let mut bytes = copy_bytes(group.devices[0].0.bytes.as_slice());
    let mut i: usize = 1;
    while i < group.devices.len()
        invariant
            1 <= i <= group.devices@.len(),
            d == group@.devices,
            bytes@ == device_list(d, i as int),
        decreases group.devices@.len() - i,
    {
        assert(d[i as int] == device_view(group.devices@[i as int]));
        let ghost before = bytes@;
        bytes.push(58);
        push_bytes(&mut bytes, group.devices[i].0.bytes.as_slice());
        assert(bytes@ =~= before + seq![58u8] + d[i as int].path);
        i = i + 1;
    }
    BootPath { bytes }
}

/// Tells what mounting a multi-device filesystem group read-only takes.
pub fn mount_group_ro(group: &DeviceGroup) -> (r: Result<GroupMount, Error>)
    requires
        group.devices@.len() > 0,
    ensures
        match r {
            Ok(m) => group_mount(group@) == Ok::<GroupMountView, Seq<char>>(m@),
            Err(e) => group_mount(group@) matches Err(m) && complains(e, m),
        },
{
    assert(group@.devices[0] == device_view(group.devices@[0]));
    let mount_point = mount_point_of(&group.devices[0].0);
    let mut scan: Vec<BootPath> = Vec::new();
    if group.fstype == FsType::Bcachefs {
        let options = if group.is_complete() {
            ""
        } else {
            "degraded"
        };
        let m = GroupMount { scan, source: list_devices(group), mount_point, options };
        assert(m@.scan =~= Seq::<Seq<u8>>::empty());
        return Ok(m);
    }
    if group.fstype != FsType::Btrfs {
        let mut m = group.fstype.as_str().to_owned();
        m.append(" does not support multi-device mount");
        return Err(Error::Parse(m));
    }
    let mut i: usize = 0;
    while i < group.devices.len()
        invariant
            i <= group.devices@.len(),
            scan@.len() == i,
            forall|k: int| 0 <= k < i ==> (#[trigger] scan@[k])@ == group.devices@[k].0@,
        decreases group.devices@.len() - i,
    {
        scan.push(group.devices[i].0.clone());
        i = i + 1;
    }
    let m = GroupMount { scan, source: group.devices[0].0.clone(), mount_point, options: "" };
    assert(m@.scan =~= group@.devices.map_values(|d: DeviceView| d.path));
    Ok(m)
}

/// What a program that failed has to say: its complaints, behind its name.
pub open spec fn tool_complaint(tool: Seq<char>, stderr: Seq<u8>) -> Seq<char> {
    tool + ": "@ + trimmed(utf8_lossy(stderr))
}

/// The error of a program that failed.
pub fn tool_error(tool: &str, stderr: &[u8]) -> (r: Error)
    ensures
        complains(r, tool_complaint(tool@, stderr@)),
{
    let mut m = tool.to_owned();
    m.append(": ");
    m.append(trim_text(lossy_text(stderr).as_str()).as_str());
    Error::Parse(m)
}

/// The error of `btrfs device scan` on a device.
pub fn scan_error(dev: &BootPath, stderr: &[u8]) -> (r: Error)
    ensures
        complains(r, tool_complaint("btrfs device scan "@ + path_text(dev@), stderr@)),
{
    let mut tool = "btrfs device scan ".to_owned();
    tool.append(dev.to_text().as_str());
    tool_error(tool.as_str(), stderr)
}

// --- Encrypted source unlocking ---

/// What unlocking a source takes.
#[derive(Debug)]
pub enum UnlockPlan {
    /// The container is opened under the given name; the filesystem inside appears
    /// on the given device, and is mounted from there.
    Luks { mapper_name: String, mapped: BootPath },
    /// The filesystem is unlocked and mounted as it is.
    Bcachefs,
}

/// The model of an unlock plan.
pub enum UnlockView {
    Luks { mapper_name: Seq<char>, mapped: Seq<u8> },
    Bcachefs,
}

impl View for UnlockPlan {
    type V = UnlockView;

    open spec fn view(&self) -> UnlockView {
        match self {
            UnlockPlan::Luks { mapper_name, mapped } => UnlockView::Luks {
                mapper_name: mapper_name@,
                mapped: mapped@,
            },
            UnlockPlan::Bcachefs => UnlockView::Bcachefs,
        }
    }
}

/// The name under which a container is opened.
pub open spec fn mapper_name(dev: Seq<u8>) -> Seq<char> {
    "kexec-"@ + plain_name(dev)
}

/// The device on which the filesystem inside a container appears.
pub open spec fn mapped_place(dev: Seq<u8>) -> Seq<u8> {
    joined(encode_utf8("/dev/mapper"@), encode_utf8(mapper_name(dev)))
}

fn mapper_name_of(dev: &BootPath) -> (r: String)
    ensures
        r@ == mapper_name(dev@),
{
    let mut name = "kexec-".to_owned();
    name.append(name_of_device(dev).as_str());
    name
}

/// The device on which the filesystem inside a container appears.
pub fn mapped_device_of(dev: &BootPath) -> (r: BootPath)
    ensures
        r@ == mapped_place(dev@),
{
    BootPath::from_text("/dev/mapper").join(mapper_name_of(dev).as_str().as_bytes())
}

/// What unlocking a source takes, or why it cannot be done.
pub open spec fn unlock_plan(dev: Seq<u8>, ft: Option<FsType>) -> Result<UnlockView, Seq<char>> {
    match ft {
        None => Err("unknown filesystem"@),
        Some(FsType::Luks) => Ok(
            UnlockView::Luks { mapper_name: mapper_name(dev), mapped: mapped_place(dev) },
        ),
        Some(FsType::Bcachefs) => Ok(UnlockView::Bcachefs),
        Some(other) => Err(fs_name(other) + " is not encrypted"@),
    }
}

/// What unlocking an encrypted source takes, given the type of its filesystem.
///
/// For LUKS: open the container via cryptsetup, probe the inner fs, mount it.
/// For bcachefs: unlock via the bcachefs tool, then mount directly.
pub fn unlock_and_mount(dev: &BootPath, fstype: Option<FsType>) -> (r: Result<UnlockPlan, Error>)
    ensures
        match r {
            Ok(p) => unlock_plan(dev@, fstype) == Ok::<UnlockView, Seq<char>>(p@),
            Err(e) => unlock_plan(dev@, fstype) matches Err(m) && complains(e, m),
        },
{
    match fstype {
        None => Err(Error::Parse("unknown filesystem".to_owned())),
        Some(ft) => if ft == FsType::Luks {
            Ok(
                UnlockPlan::Luks {
                    mapper_name: mapper_name_of(dev),
                    mapped: mapped_device_of(dev),
                },
            )
        } else if ft == FsType::Bcachefs {
            Ok(UnlockPlan::Bcachefs)
        } else {
            let mut m = ft.as_str().to_owned();
            m.append(" is not encrypted");
            Err(Error::Parse(m))
        },
    }
}

/// The filesystem on a device that is to be opened, which has to be known, given
/// what probing the device gave.
pub fn open_filesystem(probed: Result<Option<FsType>, Error>) -> (r: Result<FsType, Error>)
    ensures
        match probed {
            Ok(Some(ft)) => r == Ok::<FsType, Error>(ft),
            Ok(None) => r matches Err(e) && complains(e, "unknown filesystem"@),
            Err(e) => r == Err::<FsType, Error>(e),
        },
{
    match probed {
        Ok(Some(ft)) => Ok(ft),
        Ok(None) => Err(Error::Parse("unknown filesystem".to_owned())),
        Err(e) => Err(e),
    }
}

/// The filesystem inside a container, which has to have one.
pub fn inner_filesystem(fstype: Option<FsType>) -> (r: Result<FsType, Error>)
    ensures
        match r {
            Ok(ft) => fstype == Some(ft),
            Err(e) => fstype is None && complains(e, "no filesystem inside LUKS container"@),
        },
{
    match fstype {
        Some(ft) => Ok(ft),
        None => Err(Error::Parse("no filesystem inside LUKS container".to_owned())),
    }
}

// --- Discovery ---

/// How often the devices are looked at again while a group is not complete, one
/// second apart.
pub const MULTI_DEVICE_TIMEOUT_SECS: u32 = 5;

/// The error number that mounting an encrypted bcachefs without its key gives.
pub const ENOKEY: i32 = 126;

/// The sources that have been found and are to be mounted.
#[derive(Debug)]
pub struct Discovery {
    pub scans: Vec<ScannedDevice>,
    pub names: DiskNames,
    pub whitelist: Option<String>,
    pub locked: Vec<Source>,
    pub groups: Vec<DeviceGroup>,
    pub singles: Vec<ProbeResult>,
    pub tries_left: u32,
}

/// Something that is to be mounted.
#[derive(Debug, Clone, Copy, PartialEq, Eq, Structural)]
pub enum MountJob {
    /// The group with this number.
    Group(usize),
    /// The single device with this number.
    Single(usize),
}

/// Whether mounting a group is tried: it is complete, or can be mounted without all
/// its devices.
pub open spec fn is_tried(g: GroupView) -> bool {
    is_complete_group(g) || g.fstype == FsType::Bcachefs
}

fn can_try(group: &DeviceGroup) -> (r: bool)
    ensures
        r == is_tried(group@),
{
    group.is_complete() || group.fstype == FsType::Bcachefs
}

/// The groups among the first `n` that are to be mounted, by their numbers.
pub open spec fn group_jobs(groups: Seq<GroupView>, n: int) -> Seq<MountJob>
    decreases n,
{
    if n <= 0 {
        Seq::empty()
    } else if is_tried(groups[n - 1]) {
        group_jobs(groups, n - 1).push(MountJob::Group((n - 1) as usize))
    } else {
        group_jobs(groups, n - 1)
    }
}

/// The single devices, by their numbers.
pub open spec fn single_jobs(n: nat) -> Seq<MountJob> {
    Seq::new(n, |i: int| MountJob::Single(i as usize))
}

/// What mounting gave.
pub open spec fn outcome_view(r: Result<BootPath, Error>) -> Result<Seq<u8>, ErrorView> {
    match r {
        Ok(p) => Ok(p@),
        Err(e) => Err(e@),
    }
}

/// What mounting gave, for each job.
pub open spec fn outcome_views(s: Seq<Result<BootPath, Error>>) -> Seq<Result<Seq<u8>, ErrorView>> {
    s.map_values(|r: Result<BootPath, Error>| outcome_view(r))
}

/// The first device, from `from` on, with the given path.
pub open spec fn scan_of(scans: Seq<ScannedDevice>, path: Seq<u8>, from: int) -> Option<int>
    decreases scans.len() - from,
{
    if from < 0 || from >= scans.len() {
        None
    } else if same_path(scans[from].device@.path, path) {
        Some(from)
    } else {
        scan_of(scans, path, from + 1)
    }
}

/// The label of a source at the given path.
pub open spec fn path_label(
    scans: Seq<ScannedDevice>,
    names: DiskNames,
    path: Seq<u8>,
    ft: FsType,
) -> Seq<char> {
    match scan_of(scans, path, 0) {
        Some(i) => device_label(scans[i], ft, names),
        None => path_text(path),
    }
}

/// The label of a group: that of its first device, with the number of devices and
/// the type of the filesystem.
pub open spec fn group_label(
    g: GroupView,
    scans: Seq<ScannedDevice>,
    names: DiskNames,
) -> Seq<char> {
    path_label(scans, names, g.devices[0].path, g.fstype) + " ("@ + decimal(g.nr_expected as nat)
        + "×"@ + fs_name(g.fstype) + ")"@
}

/// What is said of a group that is not complete.
pub open spec fn incomplete_text(g: GroupView) -> Seq<char> {
    "incomplete: "@ + decimal(g.devices.len()) + "/"@ + decimal(g.nr_expected as nat)
        + " devices"@
}

/// A source in the given state.
pub open spec fn plain_source(
    label: Seq<char>,
    device: Seq<u8>,
    state: SourceStateView,
    mount_point: Option<Seq<u8>>,
) -> SourceView {
    SourceView { label, device, state, mount_point, passphrase: None }
}

/// The source that mounting something gave.
pub open spec fn mounted_source(
    label: Seq<char>,
    device: Seq<u8>,
    ft: FsType,
    outcome: Result<Seq<u8>, ErrorView>,
    may_be_locked: bool,
) -> SourceView {
    match outcome {
        Ok(mp) => plain_source(label, device, SourceStateView::Mounted, Some(mp)),
        Err(e) => if may_be_locked && ft == FsType::Bcachefs && (e matches ErrorView::Io(code, m)
            && code == Some(ENOKEY)) {
            locked_source(label, device)
        } else {
            plain_source(label, device, SourceStateView::Error(e.text()), None)
        },
    }
}

/// The sources of the groups, given what mounting those that were tried gave.
pub open spec fn group_sources(
    groups: Seq<GroupView>,
    scans: Seq<ScannedDevice>,
    names: DiskNames,
    outcomes: Seq<Result<Seq<u8>, ErrorView>>,
    n: int,
) -> Seq<SourceView>
    decreases n,
{
    if n <= 0 {
        Seq::empty()
    } else {
        let g = groups[n - 1];
        let label = group_label(g, scans, names);
        let device = g.devices[0].path;
        let before = group_sources(groups, scans, names, outcomes, n - 1);
        if is_tried(g) {
            before.push(
                mounted_source(
                    label,
                    device,
                    g.fstype,
                    outcomes[group_jobs(groups, n - 1).len() as int],
                    false,
                ),
            )
        } else {
            before.push(
                plain_source(label, device, SourceStateView::Error(incomplete_text(g)), None),
            )
        }
    }
}

/// The sources of the single devices, given what mounting them gave. An encrypted
/// bcachefs is locked.
pub open spec fn single_sources(
    singles: Seq<ProbeView>,
    scans: Seq<ScannedDevice>,
    names: DiskNames,
    outcomes: Seq<Result<Seq<u8>, ErrorView>>,
    start: int,
) -> Seq<SourceView> {
    Seq::new(
        singles.len(),
        |i: int|
            mounted_source(
                path_label(scans, names, singles[i].path, singles[i].fstype),
                singles[i].path,
                singles[i].fstype,
                outcomes[start + i],
                true,
            ),
    )
}

/// All sources, given what mounting gave: the containers, the groups, the single devices,
/// and the devices whose filesystem is not known.
pub open spec fn found_sources(
    locked: Seq<SourceView>,
    groups: Seq<GroupView>,
    singles: Seq<ProbeView>,
    scans: Seq<ScannedDevice>,
    names: DiskNames,
    whitelist: Option<Seq<char>>,
    outcomes: Seq<Result<Seq<u8>, ErrorView>>,
) -> Seq<SourceView> {
    let n = groups.len() as int;
    locked + group_sources(groups, scans, names, outcomes, n) + single_sources(
        singles,
        scans,
        names,
        outcomes,
        group_jobs(groups, n).len() as int,
    ) + unknown_sources(scans, names, whitelist, scans.len() as int)
}

/// Whether every group has a device.
pub open spec fn all_have_devices(groups: Seq<GroupView>) -> bool {
    forall|i: int| 0 <= i < groups.len() ==> (#[trigger] groups[i]).devices.len() > 0
}

pub(crate) proof fn lemma_devices_with(devices: Seq<DeviceView>, others: Seq<DeviceView>, n: int)
    ensures
        devices_with(devices, others, n).len() >= devices.len(),
        devices_with(devices, others, n).take(devices.len() as int) == devices,
    decreases n,
{
    if n > 0 {
        lemma_devices_with(devices, others, n - 1);
        let now = devices_with(devices, others, n - 1);
        let next = devices_with(devices, others, n);
        assert(next.take(devices.len() as int) =~= now.take(devices.len() as int));
    } else {
        assert(devices.take(devices.len() as int) =~= devices);
    }
}

/// What stays when groups are merged: their number, what they are of, how many
/// devices they expect, and each of their devices.
pub proof fn merging_loses_nothing(groups: Seq<GroupView>, others: Seq<GroupView>, n: int)
    ensures
        merged(groups, others, n).len() == groups.len(),
        forall|k: int|
            0 <= k < groups.len() ==> {
                let now = #[trigger] merged(groups, others, n)[k];
                &&& is_of(now, groups[k].fs_uuid, groups[k].fstype)
                &&& now.nr_expected == groups[k].nr_expected
                &&& forall|d: DeviceView|
                    groups[k].devices.contains(d) ==> #[trigger] now.devices.contains(d)
            },
    decreases n,
{
    if n > 0 {
        merging_loses_nothing(groups, others, n - 1);
        let now = merged(groups, others, n - 1);
        let other = others[n - 1];
        let next = merged(groups, others, n);
        group_of_finds(now, other.fs_uuid, other.fstype);
        if let Some(i) = group_of(now, other.fs_uuid, other.fstype, 0) {
            let more = devices_with(now[i].devices, other.devices, other.devices.len() as int);
            lemma_devices_with(now[i].devices, other.devices, other.devices.len() as int);
            assert forall|d: DeviceView| now[i].devices.contains(
                d,
            ) implies #[trigger] next[i].devices.contains(d) by {
                let j = choose|j: int| 0 <= j < now[i].devices.len() && now[i].devices[j] == d;
                assert(more[j] == more.take(now[i].devices.len() as int)[j]);
                assert(more.contains(d));
                sorted_keeps_elements(more, index_order(), d);
            }
            assert forall|k: int| 0 <= k < groups.len() implies {
                let after = #[trigger] next[k];
                &&& is_of(after, groups[k].fs_uuid, groups[k].fstype)
                &&& after.nr_expected == groups[k].nr_expected
                &&& forall|d: DeviceView|
                    groups[k].devices.contains(d) ==> #[trigger] after.devices.contains(d)
            } by {
                let mid = now[k];
                assert(is_of(mid, groups[k].fs_uuid, groups[k].fstype));
                assert forall|d: DeviceView| groups[k].devices.contains(
                    d,
                ) implies #[trigger] next[k].devices.contains(d) by {
                    assert(mid.devices.contains(d));
                }
            }
        }
    }
}

proof fn lemma_merged_have_devices(groups: Seq<GroupView>, others: Seq<GroupView>, n: int)
    requires
        all_have_devices(groups),
    ensures
        all_have_devices(merged(groups, others, n)),
{
    merging_loses_nothing(groups, others, n);
    let all = merged(groups, others, n);
    assert forall|i: int| 0 <= i < all.len() implies (#[trigger] all[i]).devices.len() > 0 by {
        let d = groups[i].devices[0];
        assert(groups[i].devices.contains(d));
        assert(merged(groups, others, n)[i].devices.contains(d));
    }
}

impl Discovery {
    /// Whether the discovery is as it should be: every group has a device, and as
    /// much was read of each device as was asked for.
    pub open spec fn is_sound(&self) -> bool {
        all_have_devices(views(self.groups@)) && are_whole(self.scans@)
    }

    /// Probes the devices and puts those of the same filesystem together.
    pub fn start(
        scans: Vec<ScannedDevice>,
        names: DiskNames,
        whitelist: Option<String>,
    ) -> (r: Discovery)
        requires
            are_whole(scans@),
        ensures
            r.is_sound(),
            r.scans == scans,
            r.names == names,
            r.whitelist == whitelist,
            source_views(r.locked@) == luks_sources(
                scans@,
                names,
                opt_text(whitelist),
                scans@.len() as int,
            ),
            views(r.groups@) == device_groups(
                probes(scans@, opt_text(whitelist), scans@.len() as int),
            ),
            views(r.singles@) == probes(
                scans@,
                opt_text(whitelist),
                scans@.len() as int,
            ).filter(is_single()),
            r.tries_left == MULTI_DEVICE_TIMEOUT_SECS,
    {
        let (locked, found) = probe_all_devices(&scans, &names, &whitelist);
        let ghost p = views(found@);
        let (groups, singles) = group_multi_device(found);
        proof {
            groups_have_devices(p);
            let all = views(groups@);
            assert forall|i: int| 0 <= i < all.len() implies (
            #[trigger] all[i]).devices.len() > 0 by {
                assert(has_devices()(device_groups(p)[i]));
            }
        }
        Discovery {
            scans,
            names,
            whitelist,
            locked,
            groups,
            singles,
            tries_left: MULTI_DEVICE_TIMEOUT_SECS,
        }
    }

    /// Whether the devices should be looked at once more, after a second: a group
    /// is not complete, and it has not been tried often enough.
    pub fn needs_wait(&self) -> (r: bool)
        ensures
            r == (self.tries_left > 0 && exists|i: int|
                0 <= i < self.groups@.len() && !is_complete_group(
                    (#[trigger] self.groups@[i])@,
                )),
    {
        if self.tries_left == 0 {
            return false;
        }
        let mut i: usize = 0;
        while i < self.groups.len()
            invariant
                i <= self.groups@.len(),
                self.tries_left > 0,
                forall|k: int|
                    0 <= k < i ==> is_complete_group((#[trigger] self.groups@[k])@),
            decreases self.groups@.len() - i,
        {
            if !self.groups[i].is_complete() {
                assert(!is_complete_group(self.groups@[i as int]@));
                return true;
            }
            i = i + 1;
        }
        false
    }

    /// Takes what looking at the devices once more gave. Only devices of groups
    /// that are not complete are added.
    pub fn rescan(&mut self, scans: &Vec<ScannedDevice>)
        requires
            are_whole(scans@),
            old(self).tries_left > 0,
            old(self).is_sound(),
        ensures
            final(self).is_sound(),
            views(final(self).groups@) == after_rescan(
                views(old(self).groups@),
                scans@,
                opt_text(old(self).whitelist),
            ),
            final(self).tries_left == old(self).tries_left - 1,
            final(self).scans == old(self).scans,
            final(self).names == old(self).names,
            final(self).whitelist == old(self).whitelist,
            final(self).locked == old(self).locked,
            final(self).singles == old(self).singles,
    {
        let ghost before = views(self.groups@);
        let found = reprobe_for_groups(&self.groups, scans, &self.whitelist);
        let (more, _) = group_multi_device(found);
        proof {
            lemma_merged_have_devices(before, views(more@), more@.len() as int);
        }
        merge_groups(&mut self.groups, &more);
        self.tries_left = self.tries_left - 1;
    }

    /// What is to be mounted, in order: the groups, but for those that lack a device
    /// they need, then the single devices.
    pub fn mount_jobs(&self) -> (r: Vec<MountJob>)
        ensures
            r@ == group_jobs(views(self.groups@), self.groups@.len() as int) + single_jobs(
                self.singles@.len(),
            ),
    {
        let ghost gv = views(self.groups@);
        let mut out: Vec<MountJob> = Vec::new();
        let mut i: usize = 0;
        while i < self.groups.len()
            invariant
                i <= self.groups@.len(),
                gv == views(self.groups@),
                out@ == group_jobs(gv, i as int),
            decreases self.groups@.len() - i,
        {
            assert(gv[i as int] == self.groups@[i as int]@);
            if can_try(&self.groups[i]) {
                out.push(MountJob::Group(i));
            }
            i = i + 1;
        }
        let ghost start = out@;
        let mut i: usize = 0;
        assert(out@ =~= start + single_jobs(0));
        while i < self.singles.len()
            invariant
                i <= self.singles@.len(),
                out@ == start + single_jobs(i as nat),
            decreases self.singles@.len() - i,
        {
            out.push(MountJob::Single(i));
            i = i + 1;
            assert(out@ =~= start + single_jobs(i as nat));
        }
        out
    }

    fn label_path(&self, path: &BootPath, ft: FsType) -> (r: String)
        ensures
            r@ == path_label(self.scans@, self.names, path@, ft),
    {
        let mut i: usize = 0;
        while i < self.scans.len()
            invariant
                i <= self.scans@.len(),
                scan_of(self.scans@, path@, 0) == scan_of(self.scans@, path@, i as int),
            decreases self.scans@.len() - i,
        {
            if self.scans[i].device.path.is_same(path) {
                return label_device(&self.scans[i], ft, &self.names);
            }
            i = i + 1;
        }
        path.to_text()
    }

    /// Format a label for a multi-device group.
    pub fn format_group_label(&self, group: &DeviceGroup) -> (r: String)
        requires
            group.devices@.len() > 0,
        ensures
            r@ == group_label(group@, self.scans@, self.names),
    {
        assert(group@.devices[0] == device_view(group.devices@[0]));
        let mut label = self.label_path(&group.devices[0].0, group.fstype);
        label.append(" (");
        push_decimal(&mut label, group.nr_expected as u64);
        label.append("×");
        label.append(group.fstype.as_str());
        label.append(")");
        label
    }

    /// The sources, given what carrying out each of the mount jobs gave: the
    /// encrypted containers, the groups, the single devices, and the devices whose
    /// filesystem is not known.
    pub fn finish(self, outcomes: &Vec<Result<BootPath, Error>>) -> (r: Vec<Source>)
        requires
            self.is_sound(),
            outcomes@.len() == group_jobs(
                views(self.groups@),
                self.groups@.len() as int,
            ).len() + self.singles@.len(),
        ensures
            source_views(r@) == found_sources(
                source_views(self.locked@),
                views(self.groups@),
                views(self.singles@),
                self.scans@,
                self.names,
                opt_text(self.whitelist),
                outcome_views(outcomes@),
            ),
    {
        let mut unknown = find_all_unknown(&self.scans, &self.names, &self.whitelist);
        let ghost last = source_views(unknown@);
        let ghost gv = views(self.groups@);
        let ghost ov = outcome_views(outcomes@);
        let ghost pv = views(self.singles@);
        let ghost total = group_jobs(gv, gv.len() as int).len();
        let mut found: Vec<Source> = Vec::new();
        let mut used: usize = 0;
        let mut i: usize = 0;
        assert(source_views(found@) =~= Seq::<SourceView>::empty());
        while i < self.groups.len()
            invariant
                i <= self.groups@.len(),
                gv == views(self.groups@),
                ov == outcome_views(outcomes@),
                all_have_devices(gv),
                outcomes@.len() >= total,
                total == group_jobs(gv, gv.len() as int).len(),
                used == group_jobs(gv, i as int).len(),
                source_views(found@) == group_sources(
                    gv,
                    self.scans@,
                    self.names,
                    ov,
                    i as int,
                ),
            decreases self.groups@.len() - i,
        {
            let g = &self.groups[i];
            let ghost before = found@;
            assert(gv[i as int] == g@);
            assert(g@.devices.len() == g.devices@.len());
            assert(g@.devices[0] == device_view(g.devices@[0]));
            let label = self.format_group_label(g);
            let device = g.devices[0].0.clone();
            if can_try(g) {
                proof {
                    lemma_jobs_grow(gv, i + 1, gv.len() as int);
                }
                assert(ov[used as int] == outcome_view(outcomes@[used as int]));
                let source = source_of(label, device, g.fstype, &outcomes[used], false);
                found.push(source);
                assert(source_views(found@) =~= source_views(before).push(source@));
                assert(outcomes.len() <= usize::MAX);
                used = used + 1;
            } else {
                let mut m = "incomplete: ".to_owned();
                push_decimal(&mut m, g.devices.len() as u64);
                m.append("/");
                push_decimal(&mut m, g.nr_expected as u64);
                m.append(" devices");
                assert(m@ =~= incomplete_text(g@));
                let source = Source {
                    label,
                    device,
                    state: SourceState::Error(m),
                    mount_point: None,
                    passphrase: None,
                };
                found.push(source);
                assert(source_views(found@) =~= source_views(before).push(source@));
            }
            i = i + 1;
        }
        let ghost first = source_views(found@);
        let ghost wanted = single_sources(pv, self.scans@, self.names, ov, total as int);
        let mut i: usize = 0;
        assert(first =~= first + wanted.take(0));
        while i < self.singles.len()
            invariant
                i <= self.singles@.len(),
                pv == views(self.singles@),
                ov == outcome_views(outcomes@),
                used == total,
                outcomes@.len() == total + self.singles@.len(),
                wanted == single_sources(pv, self.scans@, self.names, ov, total as int),
                source_views(found@) == first + wanted.take(i as int),
            decreases self.singles@.len() - i,
        {
            let p = &self.singles[i];
            let ghost before = found@;
            assert(pv[i as int] == p@);
            assert(ov[used + i] == outcome_view(outcomes@[used + i]));
            assert(outcomes.len() <= usize::MAX);
            let label = self.label_path(&p.path, p.fstype);
            let source = source_of(label, p.path.clone(), p.fstype, &outcomes[used + i], true);
            found.push(source);
            assert(source_views(found@) =~= source_views(before).push(source@));
            assert(wanted[i as int] == source@);
            assert(wanted.take(i + 1) =~= wanted.take(i as int).push(wanted[i as int]));
            i = i + 1;
            assert(source_views(found@) =~= first + wanted.take(i as int));
        }
        assert(wanted.take(i as int) =~= wanted);
        let mut sources = self.locked;
        let ghost locked = sources@;
        let ghost more = found@;
        sources.append(&mut found);
        assert(source_views(sources@) =~= source_views(locked) + source_views(more));
        assert(source_views(locked) + (first + wanted) =~= source_views(locked) + first + wanted);
        let ghost known = sources@;
        let ghost rest = unknown@;
        sources.append(&mut unknown);
        assert(source_views(sources@) =~= source_views(known) + source_views(rest));
        sources
    }
}

proof fn lemma_jobs_grow(groups: Seq<GroupView>, a: int, b: int)
    requires
        a <= b,
    ensures
        group_jobs(groups, a).len() <= group_jobs(groups, b).len(),
    decreases b - a,
{
    if a < b {
        lemma_jobs_grow(groups, a, b - 1);
    }
}

/// A group that is complete, or can do without some of its devices, is mounted.
pub proof fn tried_groups_have_jobs(groups: Seq<GroupView>, n: int, k: int)
    requires
        0 <= k < n <= usize::MAX,
        is_tried(groups[k]),
    ensures
        group_jobs(groups, n).contains(MountJob::Group(k as usize)),
    decreases n,
{
    let all = group_jobs(groups, n);
    if k < n - 1 {
        tried_groups_have_jobs(groups, n - 1, k);
        let before = group_jobs(groups, n - 1);
        let j = choose|j: int| 0 <= j < before.len() && before[j] == MountJob::Group(k as usize);
        assert(all[j] == before[j]);
    } else {
        assert(all.last() == MountJob::Group(k as usize));
    }
}

fn source_of(
    label: String,
    device: BootPath,
    ft: FsType,
    outcome: &Result<BootPath, Error>,
    may_be_locked: bool,
) -> (r: Source)
    ensures
        r@ == mounted_source(label@, device@, ft, outcome_view(*outcome), may_be_locked),
{
    let (state, mount_point) = match outcome {
        Ok(mp) => (SourceState::Mounted, Some(mp.clone())),
        Err(e) => {
            let no_key = match e {
                Error::Io(f) => match f.code {
                    Some(c) => c == ENOKEY,
                    None => false,
                },
                Error::Parse(_) => false,
            };
            if may_be_locked && ft == FsType::Bcachefs && no_key {
                (SourceState::Encrypted, None)
            } else {
                (SourceState::Error(e.to_text()), None)
            }
        },
    };
    Source { label, device, state, mount_point, passphrase: None }
}

// --- Laws of looking again ---

/// Whether a probed device is one that was waited for.
spec fn is_awaited_probe(groups: Seq<GroupView>, p: ProbeView) -> bool {
    p.multi matches Some(m) && is_awaited(groups, m.fs_uuid, p.fstype)
}

spec fn is_awaited_group(groups: Seq<GroupView>) -> spec_fn(GroupView) -> bool {
    |g: GroupView| is_awaited(groups, g.fs_uuid, g.fstype)
}

proof fn lemma_awaited_probes(
    groups: Seq<GroupView>,
    scans: Seq<ScannedDevice>,
    whitelist: Option<Seq<char>>,
    n: int,
)
    ensures
        forall|i: int|
            0 <= i < awaited_probes(groups, scans, whitelist, n).len() ==> is_awaited_probe(
                groups,
                #[trigger] awaited_probes(groups, scans, whitelist, n)[i],
            ),
    decreases n,
{
    if n > 0 {
        lemma_awaited_probes(groups, scans, whitelist, n - 1);
        let before = awaited_probes(groups, scans, whitelist, n - 1);
        let all = awaited_probes(groups, scans, whitelist, n);
        assert forall|i: int| 0 <= i < all.len() implies is_awaited_probe(
            groups,
            #[trigger] all[i],
        ) by {
            if i < before.len() {
                assert(all[i] == before[i]);
            }
        }
    }
}

proof fn lemma_awaited_raw_groups(groups: Seq<GroupView>, found: Seq<ProbeView>)
    requires
        forall|i: int| 0 <= i < found.len() ==> is_awaited_probe(groups, #[trigger] found[i]),
    ensures
        forall|i: int|
            0 <= i < raw_groups(found).len() ==> is_awaited_group(groups)(
                #[trigger] raw_groups(found)[i],
            ),
    decreases found.len(),
{
    if found.len() > 0 {
        let init = found.drop_last();
        assert forall|i: int| 0 <= i < init.len() implies is_awaited_probe(
            groups,
            #[trigger] init[i],
        ) by {
            assert(is_awaited_probe(groups, found[i]));
        }
        lemma_awaited_raw_groups(groups, init);
        assert(is_awaited_probe(groups, found[found.len() - 1]));
        let before = raw_groups(init);
        let all = raw_groups(found);
        let m = found.last().multi->0;
        group_of_finds(before, m.fs_uuid, found.last().fstype);
        assert forall|i: int| 0 <= i < all.len() implies is_awaited_group(groups)(
            #[trigger] all[i],
        ) by {
            if i < before.len() {
                assert(is_awaited_group(groups)(before[i]));
            }
        }
    }
}

proof fn lemma_merged_leaves(
    groups: Seq<GroupView>,
    others: Seq<GroupView>,
    n: int,
    k: int,
)
    requires
        pairwise(groups, are_apart()),
        forall|i: int| 0 <= i < others.len() ==> is_awaited_group(groups)(#[trigger] others[i]),
        n <= others.len(),
        0 <= k < groups.len(),
        is_complete_group(groups[k]),
    ensures
        merged(groups, others, n)[k] == groups[k],
    decreases n,
{
    if n > 0 {
        lemma_merged_leaves(groups, others, n - 1, k);
        merging_loses_nothing(groups, others, n - 1);
        let now = merged(groups, others, n - 1);
        let other = others[n - 1];
        assert(is_awaited_group(groups)(others[n - 1]));
        let j = choose|j: int|
            0 <= j < groups.len() && !is_complete_group(#[trigger] groups[j]) && is_of(
                groups[j],
                other.fs_uuid,
                other.fstype,
            );
        group_of_finds(now, other.fs_uuid, other.fstype);
        if let Some(i) = group_of(now, other.fs_uuid, other.fstype, 0) {
            assert(is_of(merged(groups, others, n - 1)[i], groups[i].fs_uuid, groups[i].fstype));
            if i != j {
                assert(are_apart()(groups[i], groups[j]));
            }
            assert(i != k);
        }
    }
}

/// Looking at the devices again leaves a complete group as it is, and keeps groups
/// of different filesystems apart.
pub proof fn complete_groups_stay(
    groups: Seq<GroupView>,
    scans: Seq<ScannedDevice>,
    whitelist: Option<Seq<char>>,
)
    requires
        pairwise(groups, are_apart()),
    ensures
        after_rescan(groups, scans, whitelist).len() == groups.len(),
        pairwise(after_rescan(groups, scans, whitelist), are_apart()),
        forall|k: int|
            0 <= k < groups.len() && is_complete_group(groups[k]) ==> #[trigger] after_rescan(
                groups,
                scans,
                whitelist,
            )[k] == groups[k],
{
    let found = awaited_probes(groups, scans, whitelist, scans.len() as int);
    let raw = raw_groups(found);
    let put = raw.map_values(|g: GroupView| ordered_group(g));
    let more = device_groups(found);
    let after = after_rescan(groups, scans, whitelist);
    lemma_awaited_probes(groups, scans, whitelist, scans.len() as int);
    lemma_awaited_raw_groups(groups, found);
    assert forall|i: int| 0 <= i < put.len() implies is_awaited_group(groups)(
        #[trigger] put[i],
    ) by {
        assert(is_awaited_group(groups)(raw[i]));
    }
    sorted_keeps_property(put, first_path_order(), is_awaited_group(groups));
    merging_loses_nothing(groups, more, more.len() as int);
    assert forall|k: int|
        0 <= k < groups.len() && is_complete_group(groups[k]) implies #[trigger] after[k]
        == groups[k] by {
        lemma_merged_leaves(groups, more, more.len() as int, k);
    }
    assert forall|a: int, b: int| 0 <= a < after.len() && 0 <= b < after.len() && a != b implies
        are_apart()(#[trigger] after[a], #[trigger] after[b]) by {
        assert(are_apart()(groups[a], groups[b]));
        assert(is_of(
            merged(groups, more, more.len() as int)[a],
            groups[a].fs_uuid,
            groups[a].fstype,
        ));
        assert(is_of(
            merged(groups, more, more.len() as int)[b],
            groups[b].fs_uuid,
            groups[b].fstype,
        ));
    }
}

} // verus!
