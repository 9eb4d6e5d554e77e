//! What holds of the sources that are found: which devices become sources, in which
//! state they are, and what is mounted for them.

use vstd::prelude::*;
use vstd::utf8::{encode_utf8, encode_utf8_decode_utf8};

use crate::devices::{first_name, is_allowed, link_name};
use crate::discover::{
    after_rescan, awaited_probes, device_list, devices_with, found_sources, group_jobs, group_label,
    group_mount, group_sources, has_device, is_awaited, lemma_devices_with, luks_sources,
    mapped_place, mapper_name, merged, merged_group, merging_loses_nothing, mount_place,
    mount_refusal, path_label, plain_name, probes, scan_of, scanned_label, scanned_member,
    scanned_type, single_jobs, single_sources, tried_groups_have_jobs, unknown_devices_are_shown,
    unknown_sources, unlock_plan, usable_type, DiskNames, MountJob, ScannedDevice, UnlockView,
};
use crate::mount::{
    are_apart, device_groups, fs_name, group_of, group_of_finds, index_order, is_complete_group,
    is_member, is_of, is_single, members_are_grouped, probed, singles_are_no_members, DeviceView,
    FsType, GroupView, MemberView, ProbeView,
};
use crate::path::{file_name_of, is_plain_name, joined, joined_name_is_child, parent_of, same_path};
use crate::sort::{pairwise, sorted, sorted_keeps_elements};
use crate::text::{decimal, utf8_lossy};
use crate::types::{ErrorView, SourceStateView, SourceView};

verus! {

// --- Which devices become sources ---

proof fn lemma_luks_sources(
    scans: Seq<ScannedDevice>,
    names: DiskNames,
    whitelist: Option<Seq<char>>,
    n: int,
    src: SourceView,
)
    requires
        0 <= n <= scans.len(),
    ensures
        luks_sources(scans, names, whitelist, n).len() <= n,
        luks_sources(scans, names, whitelist, n).contains(src) <==> exists|i: int|
            0 <= i < n && is_container(#[trigger] scans[i], names, whitelist, src),
    decreases n,
{
    if n > 0 {
        lemma_luks_sources(scans, names, whitelist, n - 1, src);
        let before = luks_sources(scans, names, whitelist, n - 1);
        let all = luks_sources(scans, names, whitelist, n);
        if before.contains(src) {
            let k = choose|k: int| 0 <= k < before.len() && before[k] == src;
            assert(all[k] == src);
            let i = choose|i: int|
                0 <= i < n - 1 && is_container(#[trigger] scans[i], names, whitelist, src);
            assert(is_container(scans[i], names, whitelist, src));
        } else if all.contains(src) {
            assert(is_container(scans[n - 1], names, whitelist, src));
        }
        if is_container(scans[n - 1], names, whitelist, src) {
            assert(all[before.len() as int] == src);
        }
    }
}

/// Whether a source is the encrypted container on a device that may be used: not
/// mounted, without a passphrase, and labelled by the partition, the UUID or the name.
pub open spec fn is_container(
    s: ScannedDevice,
    names: DiskNames,
    whitelist: Option<Seq<char>>,
    src: SourceView,
) -> bool {
    &&& is_allowed(s.device@.name, whitelist)
    &&& scanned_type(s) == Some(FsType::Luks)
    &&& src.device == s.device@.path
    &&& src.state is Encrypted
    &&& src.mount_point is None
    &&& src.passphrase is None
    &&& src.label == first_name(
        link_name(names.part_labels@, s.device@.name, 0),
        None,
        link_name(names.uuids@, s.device@.name, 0),
        s.device@.name,
    )
}

/// The encrypted containers among the sources are those on the devices that may be
/// used, every one of them and no other.
pub proof fn containers_are_locked(
    scans: Seq<ScannedDevice>,
    names: DiskNames,
    whitelist: Option<Seq<char>>,
    src: SourceView,
)
    ensures
        luks_sources(scans, names, whitelist, scans.len() as int).len() <= scans.len(),
        luks_sources(scans, names, whitelist, scans.len() as int).contains(src) <==> exists|i: int|
            0 <= i < scans.len() && is_container(#[trigger] scans[i], names, whitelist, src),
{
    lemma_luks_sources(scans, names, whitelist, scans.len() as int, src);
}

/// Whether a probed device is the one on which a filesystem was found that may be
/// used without unlocking a container.
pub open spec fn is_filesystem(
    s: ScannedDevice,
    whitelist: Option<Seq<char>>,
    p: ProbeView,
) -> bool {
    &&& is_allowed(s.device@.name, whitelist)
    &&& scanned_type(s) == Some(p.fstype)
    &&& p.fstype != FsType::Luks
    &&& p.path == s.device@.path
    &&& p.multi == scanned_member(s, p.fstype)
}

proof fn lemma_probes(
    scans: Seq<ScannedDevice>,
    whitelist: Option<Seq<char>>,
    n: int,
    p: ProbeView,
)
    requires
        0 <= n <= scans.len(),
    ensures
        probes(scans, whitelist, n).len() <= n,
        probes(scans, whitelist, n).contains(p) <==> exists|i: int|
            0 <= i < n && is_filesystem(#[trigger] scans[i], whitelist, p),
    decreases n,
{
    if n > 0 {
        lemma_probes(scans, whitelist, n - 1, p);
        let before = probes(scans, whitelist, n - 1);
        let all = probes(scans, whitelist, n);
        if before.contains(p) {
            let k = choose|k: int| 0 <= k < before.len() && before[k] == p;
            assert(all[k] == p);
            let i = choose|i: int|
                0 <= i < n - 1 && is_filesystem(#[trigger] scans[i], whitelist, p);
            assert(is_filesystem(scans[i], whitelist, p));
        } else if all.contains(p) {
            assert(is_filesystem(scans[n - 1], whitelist, p));
        }
        if is_filesystem(scans[n - 1], whitelist, p) {
            assert(all[before.len() as int] == p);
        }
    }
}

/// The filesystems that are found are those on the devices that may be used, every
/// one of them and no other.
pub proof fn filesystems_are_found(
    scans: Seq<ScannedDevice>,
    whitelist: Option<Seq<char>>,
    p: ProbeView,
)
    ensures
        probes(scans, whitelist, scans.len() as int).len() <= scans.len(),
        probes(scans, whitelist, scans.len() as int).contains(p) <==> exists|i: int|
            0 <= i < scans.len() && is_filesystem(#[trigger] scans[i], whitelist, p),
{
    lemma_probes(scans, whitelist, scans.len() as int, p);
}

proof fn lemma_unknown_is_admitted(
    scans: Seq<ScannedDevice>,
    names: DiskNames,
    whitelist: Option<Seq<char>>,
    n: int,
    k: int,
) -> (i: int)
    requires
        0 <= n <= scans.len(),
        0 <= k < unknown_sources(scans, names, whitelist, n).len(),
    ensures
        0 <= i < n,
        is_allowed(scans[i].device@.name, whitelist),
        scanned_type(scans[i]) is None,
        unknown_sources(scans, names, whitelist, n)[k].device == scans[i].device@.path,
        unknown_sources(scans, names, whitelist, n)[k].state == SourceStateView::Error(
            match probed(scans[i].probe) {
                Ok(_) => "unknown filesystem"@,
                Err(e) => e.text(),
            },
        ),
        unknown_sources(scans, names, whitelist, n)[k].mount_point is None,
        unknown_sources(scans, names, whitelist, n)[k].passphrase is None,
        unknown_sources(scans, names, whitelist, n)[k].label == first_name(
            link_name(names.part_labels@, scans[i].device@.name, 0),
            None,
            link_name(names.uuids@, scans[i].device@.name, 0),
            scans[i].device@.name,
        ),
    decreases n,
{
    let before = unknown_sources(scans, names, whitelist, n - 1);
    if k < before.len() {
        lemma_unknown_is_admitted(scans, names, whitelist, n - 1, k)
    } else {
        n - 1
    }
}

/// A source whose filesystem is not known is one on a device that may be used; it is
/// labelled as any other, and says why it is not known.
pub proof fn unknown_sources_are_admitted(
    scans: Seq<ScannedDevice>,
    names: DiskNames,
    whitelist: Option<Seq<char>>,
    k: int,
)
    requires
        0 <= k < unknown_sources(scans, names, whitelist, scans.len() as int).len(),
    ensures
        ({
            let src = unknown_sources(scans, names, whitelist, scans.len() as int)[k];
            &&& src.mount_point is None
            &&& src.passphrase is None
            &&& exists|i: int|
                {
                    &&& 0 <= i < scans.len()
                    &&& is_allowed((#[trigger] scans[i]).device@.name, whitelist)
                    &&& scanned_type(scans[i]) is None
                    &&& src.device == scans[i].device@.path
                    &&& src.state == SourceStateView::Error(
                        match probed(scans[i].probe) {
                            Ok(_) => "unknown filesystem"@,
                            Err(e) => e.text(),
                        },
                    )
                    &&& src.label == first_name(
                        link_name(names.part_labels@, scans[i].device@.name, 0),
                        None,
                        link_name(names.uuids@, scans[i].device@.name, 0),
                        scans[i].device@.name,
                    )
                }
        }),
{
    let i = lemma_unknown_is_admitted(scans, names, whitelist, scans.len() as int, k);
    assert(is_allowed(scans[i].device@.name, whitelist));
}

/// A device that may be used is among the sources, whatever is on it: a container, a
/// filesystem of its own, a member of one of several devices, or something unknown.
pub proof fn every_admitted_device_is_found(
    scans: Seq<ScannedDevice>,
    names: DiskNames,
    whitelist: Option<Seq<char>>,
    i: int,
)
    requires
        0 <= i < scans.len(),
        is_allowed(scans[i].device@.name, whitelist),
    ensures
        ({
            let n = scans.len() as int;
            let path = scans[i].device@.path;
            let found = probes(scans, whitelist, n);
            match scanned_type(scans[i]) {
                None => exists|src: SourceView| #[trigger]
                    unknown_sources(scans, names, whitelist, n).contains(src) && src.device == path
                        && src.state is Error,
                Some(ft) => if ft == FsType::Luks {
                    exists|src: SourceView| #[trigger]
                        luks_sources(scans, names, whitelist, n).contains(src) && src.device == path
                } else {
                    match scanned_member(scans[i], ft) {
                        None => found.filter(is_single()).contains(
                            ProbeView { path, fstype: ft, multi: None },
                        ),
                        Some(m) => is_member(
                            device_groups(found),
                            m.fs_uuid,
                            ft,
                            DeviceView { path, idx: m.dev_idx },
                        ),
                    }
                },
            }
        }),
{
    let n = scans.len() as int;
    let path = scans[i].device@.path;
    let found = probes(scans, whitelist, n);
    if scanned_type(scans[i]) is None {
        unknown_devices_are_shown(scans, names, whitelist, i);
    }
    if let Some(ft) = scanned_type(scans[i]) {
        if ft == FsType::Luks {
            let src = SourceView {
                label: first_name(
                    link_name(names.part_labels@, scans[i].device@.name, 0),
                    None,
                    link_name(names.uuids@, scans[i].device@.name, 0),
                    scans[i].device@.name,
                ),
                device: path,
                state: SourceStateView::Encrypted,
                mount_point: None,
                passphrase: None,
            };
            assert(is_container(scans[i], names, whitelist, src));
            containers_are_locked(scans, names, whitelist, src);
        } else {
            let p = ProbeView { path, fstype: ft, multi: scanned_member(scans[i], ft) };
            assert(is_filesystem(scans[i], whitelist, p));
            filesystems_are_found(scans, whitelist, p);
            singles_are_no_members(found, p);
            members_are_grouped(found);
            let k = choose|k: int| 0 <= k < found.len() && found[k] == p;
            assert(found[k].multi == p.multi);
        }
    }
}

// --- What is mounted ---

proof fn lemma_job(groups: Seq<GroupView>, n: int, j: int) -> (k: int)
    requires
        0 <= n <= usize::MAX,
        0 <= j < group_jobs(groups, n).len(),
    ensures
        0 <= k < n,
        group_jobs(groups, n)[j] == MountJob::Group(k as usize),
        is_complete_group(groups[k]) || groups[k].fstype == FsType::Bcachefs,
        group_jobs(groups, k).len() == j,
    decreases n,
{
    let before = group_jobs(groups, n - 1);
    if j < before.len() {
        lemma_job(groups, n - 1, j)
    } else {
        n - 1
    }
}

/// A group is mounted exactly if at least as many of its devices were found as it
/// expects, or if it is a bcachefs, which can do without some.
pub proof fn complete_groups_are_mounted(groups: Seq<GroupView>, n: int, k: int)
    requires
        0 <= k < n <= usize::MAX,
        groups[k].devices.len() < 0x1_0000_0000,
    ensures
        group_jobs(groups, n).contains(MountJob::Group(k as usize)) <==> groups[k].devices.len()
            >= groups[k].nr_expected || groups[k].fstype == FsType::Bcachefs,
{
    if is_complete_group(groups[k]) || groups[k].fstype == FsType::Bcachefs {
        tried_groups_have_jobs(groups, n, k);
    }
    let jobs = group_jobs(groups, n);
    if jobs.contains(MountJob::Group(k as usize)) {
        let j = choose|j: int| 0 <= j < jobs.len() && jobs[j] == MountJob::Group(k as usize);
        let q = lemma_job(groups, n, j);
        assert(q == k);
    }
}

/// The jobs are those of the groups, in their order and each once, and behind them
/// one for each single device.
pub proof fn jobs_have_their_order(groups: Seq<GroupView>, n: int, singles: nat, a: int, b: int)
    requires
        0 <= n <= usize::MAX,
        singles <= usize::MAX,
        0 <= a < b < (group_jobs(groups, n) + single_jobs(singles)).len(),
    ensures
        ({
            let jobs = group_jobs(groups, n) + single_jobs(singles);
            match (jobs[a], jobs[b]) {
                (MountJob::Group(i), MountJob::Group(k)) => i < k,
                (MountJob::Group(_), MountJob::Single(_)) => true,
                (MountJob::Single(i), MountJob::Single(k)) => i < k,
                (MountJob::Single(_), MountJob::Group(_)) => false,
            }
        }),
        (group_jobs(groups, n) + single_jobs(singles)).len() == group_jobs(groups, n).len()
            + singles,
        forall|i: int|
            0 <= i < singles ==> #[trigger] single_jobs(singles)[i] == MountJob::Single(i as usize),
{
    let first = group_jobs(groups, n);
    if b < first.len() {
        let i = lemma_job(groups, n, a);
        let k = lemma_job(groups, n, b);
        assert((first + single_jobs(singles))[a] == first[a]);
        assert((first + single_jobs(singles))[b] == first[b]);
        if k <= i {
            lemma_fewer_jobs(groups, k, i);
        }
    } else {
        let jobs = first + single_jobs(singles);
        assert(jobs[b] == MountJob::Single((b - first.len()) as usize));
        if a < first.len() {
            let i = lemma_job(groups, n, a);
            assert(jobs[a] == MountJob::Group(i as usize));
        } else {
            assert(jobs[a] == MountJob::Single((a - first.len()) as usize));
        }
    }
}

proof fn lemma_fewer_jobs(groups: Seq<GroupView>, a: int, b: int)
    requires
        a <= b,
    ensures
        group_jobs(groups, a).len() <= group_jobs(groups, b).len(),
    decreases b - a,
{
    if a < b {
        lemma_fewer_jobs(groups, a, b - 1);
    }
}

proof fn lemma_group_source(
    groups: Seq<GroupView>,
    scans: Seq<ScannedDevice>,
    names: DiskNames,
    outcomes: Seq<Result<Seq<u8>, ErrorView>>,
    n: int,
    k: int,
)
    requires
        0 <= k < n,
    ensures
        group_sources(groups, scans, names, outcomes, n).len() == n,
        group_sources(groups, scans, names, outcomes, n)[k] == group_sources(
            groups,
            scans,
            names,
            outcomes,
            k + 1,
        )[k],
        group_sources(groups, scans, names, outcomes, k).len() == k,
    decreases n,
{
    if k < n - 1 {
        lemma_group_source(groups, scans, names, outcomes, n - 1, k);
    } else if k > 0 {
        lemma_group_source(groups, scans, names, outcomes, k, k - 1);
    } else {
        assert(group_sources(groups, scans, names, outcomes, 0).len() == 0);
    }
}

/// Every group becomes a source. One of which fewer devices were found than it
/// expects, and which cannot do without them, is not mounted; its source says how
/// many are there and how many should be.
pub proof fn incomplete_groups_are_errors(
    groups: Seq<GroupView>,
    scans: Seq<ScannedDevice>,
    names: DiskNames,
    outcomes: Seq<Result<Seq<u8>, ErrorView>>,
    k: int,
)
    requires
        groups.len() <= usize::MAX,
        0 <= k < groups.len(),
        groups[k].devices.len() < groups[k].nr_expected,
        groups[k].devices.len() < 0x1_0000_0000,
        groups[k].fstype != FsType::Bcachefs,
    ensures
        !group_jobs(groups, groups.len() as int).contains(MountJob::Group(k as usize)),
        group_sources(groups, scans, names, outcomes, groups.len() as int).len() == groups.len(),
        ({
            let src = group_sources(groups, scans, names, outcomes, groups.len() as int)[k];
            &&& src.state == SourceStateView::Error(
                "incomplete: "@ + decimal(groups[k].devices.len()) + "/"@ + decimal(
                    groups[k].nr_expected as nat,
                ) + " devices"@,
            )
            &&& src.mount_point is None
            &&& src.passphrase is None
            &&& src.device == groups[k].devices[0].path
            &&& src.label == group_label(groups[k], scans, names)
        }),
{
    complete_groups_are_mounted(groups, groups.len() as int, k);
    lemma_group_source(groups, scans, names, outcomes, groups.len() as int, k);
}

/// The source of a group that was to be mounted is in the state that its job left:
/// mounted where the job mounted it, or the job's error.
pub proof fn groups_are_where_their_jobs_put_them(
    groups: Seq<GroupView>,
    scans: Seq<ScannedDevice>,
    names: DiskNames,
    outcomes: Seq<Result<Seq<u8>, ErrorView>>,
    j: int,
    k: int,
)
    requires
        groups.len() <= usize::MAX,
        0 <= k < groups.len(),
        0 <= j < group_jobs(groups, groups.len() as int).len(),
        group_jobs(groups, groups.len() as int)[j] == MountJob::Group(k as usize),
    ensures
        ({
            let src = group_sources(groups, scans, names, outcomes, groups.len() as int)[k];
            &&& src.device == groups[k].devices[0].path
            &&& src.label == group_label(groups[k], scans, names)
            &&& src.passphrase is None
            &&& outcomes[j] matches Ok(mp) ==> src.state is Mounted && src.mount_point == Some(mp)
            &&& outcomes[j] matches Err(e) ==> src.state == SourceStateView::Error(e.text())
                && src.mount_point is None
        }),
{
    let q = lemma_job(groups, groups.len() as int, j);
    assert(q == k);
    lemma_group_source(groups, scans, names, outcomes, groups.len() as int, k);
}

/// Every single device becomes a source in the state that its job left. A bcachefs
/// whose key is missing is locked; any other failure is the source's error.
pub proof fn singles_are_where_their_jobs_put_them(
    singles: Seq<ProbeView>,
    scans: Seq<ScannedDevice>,
    names: DiskNames,
    outcomes: Seq<Result<Seq<u8>, ErrorView>>,
    start: int,
    i: int,
)
    requires
        0 <= i < singles.len(),
    ensures
        single_sources(singles, scans, names, outcomes, start).len() == singles.len(),
        ({
            let src = single_sources(singles, scans, names, outcomes, start)[i];
            let locked = singles[i].fstype == FsType::Bcachefs && (outcomes[start + i] matches Err(
                ErrorView::Io(Some(code), m),
            ) && code == 126);
            &&& src.device == singles[i].path
            &&& src.label == path_label(scans, names, singles[i].path, singles[i].fstype)
            &&& src.passphrase is None
            &&& outcomes[start + i] matches Ok(mp) ==> src.state is Mounted && src.mount_point
                == Some(mp)
            &&& outcomes[start + i] is Err ==> src.mount_point is None
            &&& locked ==> src.state is Encrypted
            &&& !locked ==> (outcomes[start + i] matches Err(e) ==> src.state
                == SourceStateView::Error(e.text()))
        }),
{
}

// --- How sources are called ---

proof fn lemma_scan_of(scans: Seq<ScannedDevice>, path: Seq<u8>, from: int)
    requires
        0 <= from,
    ensures
        scan_of(scans, path, from) matches Some(i) ==> from <= i < scans.len() && same_path(
            scans[i].device@.path,
            path,
        ),
        scan_of(scans, path, from) is None ==> forall|i: int|
            from <= i < scans.len() ==> !same_path((#[trigger] scans[i]).device@.path, path),
    decreases scans.len() - from,
{
    if from < scans.len() && !same_path(scans[from].device@.path, path) {
        lemma_scan_of(scans, path, from + 1);
    }
}

/// A source is labelled by its device: the label of the partition goes before that
/// of the filesystem, then come the UUID and the name.
pub proof fn sources_are_labelled_by_their_device(
    scans: Seq<ScannedDevice>,
    names: DiskNames,
    ft: FsType,
    i: int,
)
    requires
        0 <= i < scans.len(),
        forall|k: int|
            0 <= k < scans.len() && k != i ==> !same_path(
                (#[trigger] scans[k]).device@.path,
                scans[i].device@.path,
            ),
    ensures
        path_label(scans, names, scans[i].device@.path, ft) == first_name(
            link_name(names.part_labels@, scans[i].device@.name, 0),
            scanned_label(scans[i], ft),
            link_name(names.uuids@, scans[i].device@.name, 0),
            scans[i].device@.name,
        ),
{
    lemma_scan_of(scans, scans[i].device@.path, 0);
    assert(same_path(scans[i].device@.path, scans[i].device@.path));
}

// --- Looking again ---

proof fn lemma_devices_with_has(
    devices: Seq<DeviceView>,
    others: Seq<DeviceView>,
    n: int,
    j: int,
)
    requires
        0 <= j < n <= others.len(),
    ensures
        has_device(devices_with(devices, others, n), others[j].path),
    decreases n,
{
    let now = devices_with(devices, others, n - 1);
    let next = devices_with(devices, others, n);
    if j < n - 1 {
        lemma_devices_with_has(devices, others, n - 1, j);
        let i = choose|i: int|
            0 <= i < now.len() && same_path((#[trigger] now[i]).path, others[j].path);
        assert(next[i] == now[i]);
    } else if !has_device(now, others[j].path) {
        assert(same_path(next[now.len() as int].path, others[j].path));
    }
}

proof fn lemma_sorted_has(devices: Seq<DeviceView>, path: Seq<u8>)
    requires
        has_device(devices, path),
    ensures
        has_device(sorted(devices, index_order()), path),
{
    let i = choose|i: int| 0 <= i < devices.len() && same_path((#[trigger] devices[i]).path, path);
    let s = sorted(devices, index_order());
    sorted_keeps_elements(devices, index_order(), devices[i]);
    assert(devices.contains(devices[i]));
    let k = choose|k: int| 0 <= k < s.len() && s[k] == devices[i];
    assert(same_path(s[k].path, path));
}

proof fn lemma_merged_group_keeps(g: GroupView, other: GroupView, path: Seq<u8>)
    requires
        has_device(g.devices, path),
    ensures
        has_device(merged_group(g, other).devices, path),
{
    let n = other.devices.len() as int;
    let more = devices_with(g.devices, other.devices, n);
    lemma_devices_with(g.devices, other.devices, n);
    let i = choose|i: int|
        0 <= i < g.devices.len() && same_path((#[trigger] g.devices[i]).path, path);
    assert(more[i] == more.take(g.devices.len() as int)[i]);
    lemma_sorted_has(more, path);
}

proof fn lemma_merged_adds(
    groups: Seq<GroupView>,
    others: Seq<GroupView>,
    n: int,
    j: int,
    k: int,
    d: DeviceView,
)
    requires
        pairwise(groups, are_apart()),
        0 <= j < n <= others.len(),
        0 <= k < groups.len(),
        is_of(groups[k], others[j].fs_uuid, others[j].fstype),
        others[j].devices.contains(d),
    ensures
        has_device(merged(groups, others, n)[k].devices, d.path),
    decreases n,
{
    let now = merged(groups, others, n - 1);
    let other = others[n - 1];
    merging_loses_nothing(groups, others, n - 1);
    group_of_finds(now, other.fs_uuid, other.fstype);
    assert(is_of(now[k], groups[k].fs_uuid, groups[k].fstype));
    if j < n - 1 {
        lemma_merged_adds(groups, others, n - 1, j, k, d);
        lemma_merged_group_keeps(now[k], other, d.path);
    } else {
        let i = group_of(now, other.fs_uuid, other.fstype, 0)->0;
        assert(is_of(now[i], groups[i].fs_uuid, groups[i].fstype));
        if i != k {
            assert(are_apart()(groups[i], groups[k]));
        }
        let more = devices_with(now[k].devices, other.devices, other.devices.len() as int);
        let q = choose|q: int| 0 <= q < other.devices.len() && other.devices[q] == d;
        lemma_devices_with_has(now[k].devices, other.devices, other.devices.len() as int, q);
        lemma_sorted_has(more, d.path);
    }
}

proof fn lemma_awaited_probe(
    groups: Seq<GroupView>,
    scans: Seq<ScannedDevice>,
    whitelist: Option<Seq<char>>,
    n: int,
    i: int,
)
    requires
        0 <= i < n <= scans.len(),
        usable_type(scans[i], whitelist) matches Some(ft) && scanned_member(
            scans[i],
            ft,
        ) matches Some(m) && is_awaited(groups, m.fs_uuid, ft),
    ensures
        usable_type(scans[i], whitelist) matches Some(ft) && scanned_member(
            scans[i],
            ft,
        ) matches Some(m) && awaited_probes(groups, scans, whitelist, n).contains(
            ProbeView { path: scans[i].device@.path, fstype: ft, multi: Some(m) },
        ),
    decreases n,
{
    let ft = usable_type(scans[i], whitelist)->0;
    let m = scanned_member(scans[i], ft)->0;
    let p = ProbeView { path: scans[i].device@.path, fstype: ft, multi: Some(m) };
    let before = awaited_probes(groups, scans, whitelist, n - 1);
    let all = awaited_probes(groups, scans, whitelist, n);
    if i < n - 1 {
        lemma_awaited_probe(groups, scans, whitelist, n - 1, i);
        let k = choose|k: int| 0 <= k < before.len() && before[k] == p;
        assert(all[k] == p);
    } else {
        assert(all[before.len() as int] == p);
    }
}

/// Looking at the devices again adds to a group that is not complete every device of
/// its filesystem that has appeared and may be used.
pub proof fn awaited_devices_are_added(
    groups: Seq<GroupView>,
    scans: Seq<ScannedDevice>,
    whitelist: Option<Seq<char>>,
    i: int,
    k: int,
    ft: FsType,
    m: MemberView,
)
    requires
        pairwise(groups, are_apart()),
        0 <= i < scans.len(),
        0 <= k < groups.len(),
        is_allowed(scans[i].device@.name, whitelist),
        scanned_type(scans[i]) == Some(ft),
        scanned_member(scans[i], ft) == Some(m),
        groups[k].fs_uuid == m.fs_uuid,
        groups[k].fstype == ft,
        groups[k].devices.len() < groups[k].nr_expected,
        groups[k].devices.len() < 0x1_0000_0000,
    ensures
        has_device(after_rescan(groups, scans, whitelist)[k].devices, scans[i].device@.path),
{
    assert(!is_complete_group(groups[k]) && is_of(groups[k], m.fs_uuid, ft));
    let n = scans.len() as int;
    let found = awaited_probes(groups, scans, whitelist, n);
    let more = device_groups(found);
    let p = ProbeView { path: scans[i].device@.path, fstype: ft, multi: Some(m) };
    let d = DeviceView { path: p.path, idx: m.dev_idx };
    lemma_awaited_probe(groups, scans, whitelist, n, i);
    members_are_grouped(found);
    let q = choose|q: int| 0 <= q < found.len() && found[q] == p;
    assert(found[q].multi is Some);
    assert(is_member(more, m.fs_uuid, ft, d));
    let j = choose|j: int|
        0 <= j < more.len() && is_of(#[trigger] more[j], m.fs_uuid, ft)
            && more[j].devices.contains(d);
    lemma_merged_adds(groups, more, more.len() as int, j, k, d);
}

// --- How it is mounted and unlocked ---

/// A group of btrfs devices is mounted from the first of them once each has been
/// scanned; one of bcachefs devices from all of them, set apart by colons, and
/// degraded exactly if some are missing. No other filesystem can be a group.
pub proof fn groups_are_mounted_by_type(g: GroupView)
    requires
        0 < g.devices.len() < 0x1_0000_0000,
    ensures
        g.fstype == FsType::Btrfs ==> (group_mount(g) matches Ok(m) && m.source
            == g.devices[0].path && m.options.len() == 0 && m.scan.len() == g.devices.len() && (
        forall|i: int| 0 <= i < g.devices.len() ==> #[trigger] m.scan[i] == g.devices[i].path)),
        g.fstype == FsType::Bcachefs ==> (group_mount(g) matches Ok(m) && m.scan.len() == 0
            && m.source == device_list(g.devices, g.devices.len() as int) && m.options == (
        if g.devices.len() < g.nr_expected {
            "degraded"@
        } else {
            Seq::empty()
        })),
        g.fstype != FsType::Btrfs && g.fstype != FsType::Bcachefs ==> group_mount(g) is Err,
        group_mount(g) matches Ok(m) ==> m.mount_point == mount_place(g.devices[0].path),
{
    reveal_strlit("");
    assert(""@ =~= Seq::empty());
}

/// The devices of a bcachefs are listed in their order, set apart by colons.
pub proof fn device_list_is_set_apart(devices: Seq<DeviceView>, d: DeviceView)
    ensures
        device_list(seq![d], 1) == d.path,
        devices.len() > 0 ==> device_list(devices.push(d), 1 + devices.len() as int) == device_list(
            devices,
            devices.len() as int,
        ).push(58u8) + d.path,
{
    if devices.len() > 0 {
        lemma_device_list_of_prefix(devices, d, devices.len() as int);
        let before = device_list(devices, devices.len() as int);
        assert(before + seq![58u8] + d.path =~= before.push(58u8) + d.path);
    }
}

proof fn lemma_device_list_of_prefix(devices: Seq<DeviceView>, d: DeviceView, n: int)
    requires
        n <= devices.len(),
    ensures
        device_list(devices.push(d), n) == device_list(devices, n),
    decreases n,
{
    if n > 0 {
        lemma_device_list_of_prefix(devices, d, n - 1);
        assert(devices.push(d)[n - 1] == devices[n - 1]);
        assert(devices.push(d)[0] == devices[0]);
    }
}

/// A device is mounted unless it is an encrypted container or a path has a zero byte
/// in it.
pub proof fn mounting_is_refused_for_containers(dev: Seq<u8>, target: Seq<u8>, ft: FsType)
    ensures
        mount_refusal(dev, target, ft) is None <==> ft != FsType::Luks && !dev.contains(0u8)
            && !target.contains(0u8),
{
}

/// Only a container and a bcachefs can be unlocked, and only the container appears as
/// a device of its own.
pub proof fn encrypted_filesystems_can_be_unlocked(dev: Seq<u8>, ft: Option<FsType>)
    ensures
        unlock_plan(dev, ft) is Ok <==> ft == Some(FsType::Luks) || ft == Some(FsType::Bcachefs),
        unlock_plan(dev, ft) matches Ok(UnlockView::Luks { .. }) <==> ft == Some(FsType::Luks),
{
}

proof fn lemma_joined_apart(dir: Seq<u8>, a: Seq<u8>, b: Seq<u8>)
    requires
        a != b,
        a.len() > 0 && a[0] != 47,
        b.len() > 0 && b[0] != 47,
    ensures
        joined(dir, a) != joined(dir, b),
{
    let x = joined(dir, a);
    let y = joined(dir, b);
    let n = x.len() - a.len();
    if x == y {
        assert(x.skip(n as int) =~= a);
        assert(y.skip((y.len() - b.len()) as int) =~= b);
    }
}

/// Devices with different names are mounted in different places, and containers on
/// them are opened under different names.
pub proof fn devices_have_their_own_places(a: Seq<u8>, b: Seq<u8>)
    requires
        plain_name(a) != plain_name(b),
    ensures
        mapper_name(a) != mapper_name(b),
        encode_utf8(plain_name(a)).len() > 0 && encode_utf8(plain_name(a))[0] != 47 && encode_utf8(
            plain_name(b),
        ).len() > 0 && encode_utf8(plain_name(b))[0] != 47 ==> mount_place(a) != mount_place(b),
{
    let x = plain_name(a);
    let y = plain_name(b);
    if mapper_name(a) == mapper_name(b) {
        let n = "kexec-"@.len() as int;
        assert(mapper_name(a).skip(n) =~= x);
        assert(mapper_name(b).skip(n) =~= y);
    }
    encode_utf8_decode_utf8(x);
    encode_utf8_decode_utf8(y);
    let p = encode_utf8(x);
    let q = encode_utf8(y);
    if p.len() > 0 && p[0] != 47 && q.len() > 0 && q[0] != 47 {
        lemma_joined_apart(encode_utf8("/mnt/kexec-menu"@), p, q);
    }
}

// --- All sources ---

proof fn lemma_contains_either<V>(a: Seq<V>, b: Seq<V>, x: V)
    ensures
        (a + b).contains(x) <==> a.contains(x) || b.contains(x),
{
    if a.contains(x) {
        let k = choose|k: int| 0 <= k < a.len() && a[k] == x;
        assert((a + b)[k] == x);
    }
    if b.contains(x) {
        let k = choose|k: int| 0 <= k < b.len() && b[k] == x;
        assert((a + b)[a.len() + k] == x);
    }
    if (a + b).contains(x) {
        let k = choose|k: int| 0 <= k < (a + b).len() && (a + b)[k] == x;
        if k < a.len() {
            assert(a[k] == x);
        } else {
            assert(b[k - a.len()] == x);
        }
    }
}

/// The sources are the containers, one for each group, one for each single device, and
/// the devices whose filesystem is not known, in this order and no others.
pub proof fn sources_are_of_four_sorts(
    locked: Seq<SourceView>,
    groups: Seq<GroupView>,
    singles: Seq<ProbeView>,
    scans: Seq<ScannedDevice>,
    names: DiskNames,
    whitelist: Option<Seq<char>>,
    outcomes: Seq<Result<Seq<u8>, ErrorView>>,
    src: SourceView,
)
    ensures
        ({
            let all = found_sources(locked, groups, singles, scans, names, whitelist, outcomes);
            let jobs = group_jobs(groups, groups.len() as int).len() as int;
            let of_groups = group_sources(groups, scans, names, outcomes, groups.len() as int);
            let of_singles = single_sources(singles, scans, names, outcomes, jobs);
            let unknown = unknown_sources(scans, names, whitelist, scans.len() as int);
            &&& all.contains(src) <==> locked.contains(src) || of_groups.contains(src)
                || of_singles.contains(src) || unknown.contains(src)
            &&& all.len() == locked.len() + groups.len() + singles.len() + unknown.len()
            &&& all.take(locked.len() as int) == locked
            &&& all.skip(all.len() - unknown.len()) == unknown
        }),
{
    let all = found_sources(locked, groups, singles, scans, names, whitelist, outcomes);
    let n = groups.len() as int;
    let jobs = group_jobs(groups, n).len() as int;
    let of_groups = group_sources(groups, scans, names, outcomes, n);
    let of_singles = single_sources(singles, scans, names, outcomes, jobs);
    let unknown = unknown_sources(scans, names, whitelist, scans.len() as int);
    lemma_contains_either(locked, of_groups, src);
    lemma_contains_either(locked + of_groups, of_singles, src);
    lemma_contains_either(locked + of_groups + of_singles, unknown, src);
    if n > 0 {
        lemma_group_source(groups, scans, names, outcomes, n, 0);
    }
    assert(all.take(locked.len() as int) =~= locked);
    assert(all.skip(all.len() - unknown.len()) =~= unknown);
}

/// No device that may be used is lost: each ends up in a source, of its own or of the
/// group that it belongs to, whatever mounting gave.
pub proof fn no_admitted_device_is_lost(
    scans: Seq<ScannedDevice>,
    names: DiskNames,
    whitelist: Option<Seq<char>>,
    outcomes: Seq<Result<Seq<u8>, ErrorView>>,
    i: int,
)
    requires
        0 <= i < scans.len(),
        is_allowed(scans[i].device@.name, whitelist),
    ensures
        ({
            let n = scans.len() as int;
            let found = probes(scans, whitelist, n);
            let groups = device_groups(found);
            let all = found_sources(
                luks_sources(scans, names, whitelist, n),
                groups,
                found.filter(is_single()),
                scans,
                names,
                whitelist,
                outcomes,
            );
            let path = scans[i].device@.path;
            ||| exists|k: int| 0 <= k < all.len() && (#[trigger] all[k]).device == path
            ||| exists|g: int, k: int|
                0 <= g < groups.len() && 0 <= k < all.len() && (
                #[trigger] all[k]).device == (#[trigger] groups[g]).devices[0].path && exists|
                    d: int,
                |
                    0 <= d < groups[g].devices.len() && (#[trigger] groups[g].devices[d]).path
                        == path
        }),
{
    let n = scans.len() as int;
    let found = probes(scans, whitelist, n);
    let groups = device_groups(found);
    let singles = found.filter(is_single());
    let locked = luks_sources(scans, names, whitelist, n);
    let all = found_sources(locked, groups, singles, scans, names, whitelist, outcomes);
    let path = scans[i].device@.path;
    let m = groups.len() as int;
    let jobs = group_jobs(groups, m).len() as int;
    every_admitted_device_is_found(scans, names, whitelist, i);
    match scanned_type(scans[i]) {
        None => {
            let unknown = unknown_sources(scans, names, whitelist, n);
            let src = choose|src: SourceView| #[trigger]
                unknown.contains(src) && src.device == path && src.state is Error;
            sources_are_of_four_sorts(
                locked,
                groups,
                singles,
                scans,
                names,
                whitelist,
                outcomes,
                src,
            );
            let k = choose|k: int| 0 <= k < all.len() && all[k] == src;
            assert(all[k].device == path);
        },
        Some(ft) => {
            if ft == FsType::Luks {
                let src = choose|src: SourceView| #[trigger]
                    locked.contains(src) && src.device == path;
                sources_are_of_four_sorts(
                    locked,
                    groups,
                    singles,
                    scans,
                    names,
                    whitelist,
                    outcomes,
                    src,
                );
                let k = choose|k: int| 0 <= k < all.len() && all[k] == src;
                assert(all[k].device == path);
            } else {
                match scanned_member(scans[i], ft) {
                    None => {
                        let p = ProbeView { path, fstype: ft, multi: None };
                        let q = choose|q: int| 0 <= q < singles.len() && singles[q] == p;
                        let of_singles = single_sources(singles, scans, names, outcomes, jobs);
                        let src = of_singles[q];
                        singles_are_where_their_jobs_put_them(
                            singles,
                            scans,
                            names,
                            outcomes,
                            jobs,
                            q,
                        );
                        assert(of_singles.contains(src));
                        sources_are_of_four_sorts(
                            locked,
                            groups,
                            singles,
                            scans,
                            names,
                            whitelist,
                            outcomes,
                            src,
                        );
                        let k = choose|k: int| 0 <= k < all.len() && all[k] == src;
                        assert(all[k].device == path);
                    },
                    Some(member) => {
                        let d = DeviceView { path, idx: member.dev_idx };
                        let g = choose|g: int|
                            0 <= g < groups.len() && is_of(#[trigger] groups[g], member.fs_uuid, ft)
                                && groups[g].devices.contains(d);
                        let at = choose|at: int|
                            0 <= at < groups[g].devices.len() && groups[g].devices[at] == d;
                        assert(groups[g].devices[at].path == path);
                        let of_groups = group_sources(groups, scans, names, outcomes, m);
                        lemma_group_source(groups, scans, names, outcomes, m, g);
                        let src = of_groups[g];
                        assert(src.device == groups[g].devices[0].path);
                        assert(of_groups.contains(src));
                        sources_are_of_four_sorts(
                            locked,
                            groups,
                            singles,
                            scans,
                            names,
                            whitelist,
                            outcomes,
                            src,
                        );
                        let k = choose|k: int| 0 <= k < all.len() && all[k] == src;
                        assert(all[k].device == groups[g].devices[0].path);
                    },
                }
            }
        },
    }
}

/// A group is called by its first device, with how many devices it has and of what
/// filesystem it is behind.
pub proof fn groups_are_labelled_by_their_first_device(
    g: GroupView,
    scans: Seq<ScannedDevice>,
    names: DiskNames,
)
    ensures
        ({
            let first = path_label(scans, names, g.devices[0].path, g.fstype);
            let label = group_label(g, scans, names);
            &&& first.is_prefix_of(label)
            &&& label.skip(first.len() as int) == " ("@ + decimal(g.nr_expected as nat) + "×"@
                + fs_name(g.fstype) + ")"@
        }),
{
    let first = path_label(scans, names, g.devices[0].path, g.fstype);
    let label = group_label(g, scans, names);
    assert(label.subrange(0, first.len() as int) =~= first);
    assert(label.skip(first.len() as int) =~= " ("@ + decimal(g.nr_expected as nat) + "×"@
        + fs_name(g.fstype) + ")"@);
}

/// A device is mounted under its own name in the directory for mounts, and the device in
/// a container appears under that name, behind a prefix, where the mapper puts it.
pub proof fn places_are_named_after_the_device(dev: Seq<u8>, name: Seq<u8>)
    requires
        file_name_of(dev) == Some(name),
        is_plain_name(encode_utf8(utf8_lossy(name))),
        is_plain_name(encode_utf8("kexec-"@ + utf8_lossy(name))),
    ensures
        file_name_of(mount_place(dev)) == Some(encode_utf8(utf8_lossy(name))),
        parent_of(mount_place(dev)) matches Some(dir) && same_path(
            dir,
            encode_utf8("/mnt/kexec-menu"@),
        ),
        mapper_name(dev) == "kexec-"@ + utf8_lossy(name),
        file_name_of(mapped_place(dev)) == Some(encode_utf8("kexec-"@ + utf8_lossy(name))),
        parent_of(mapped_place(dev)) matches Some(dir) && same_path(
            dir,
            encode_utf8("/dev/mapper"@),
        ),
{
    joined_name_is_child(encode_utf8("/mnt/kexec-menu"@), encode_utf8(utf8_lossy(name)));
    joined_name_is_child(
        encode_utf8("/dev/mapper"@),
        encode_utf8("kexec-"@ + utf8_lossy(name)),
    );
}

} // verus!
