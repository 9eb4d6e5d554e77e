//! Block devices: which there are, what they are called, and which may be used.

use vstd::prelude::*;
use vstd::slice::slice_subrange;
use vstd::utf8::encode_utf8;

use crate::path::{
    bytes_before, bytes_go_before, bytes_order_total, bytes_order_transitive, file_name_of, joined,
    BootPath,
};
use crate::sort::{
    sorted, sorted_is_ordered_rearrangement, sorted_keeps_elements, stable_sort, views, Ranked,
};
use crate::text::{
    bounded_number, chars_of, decimal, decimal_is_read_back, is_white_space, lossy_text, number,
    opt_text, parse_number, same_text, text_of, trim_text, trimmed, trimming_drops_outer_space,
    utf8_lossy,
};

verus! {

// --- Block device enumeration ---

/// A discovered block device.
#[derive(Debug)]
pub struct BlockDevice {
    pub path: BootPath,
    pub name: String,
    pub size_bytes: u64,
}

/// The model of a block device.
pub struct BlockView {
    pub path: Seq<u8>,
    pub name: Seq<char>,
    pub size_bytes: int,
}

impl View for BlockDevice {
    type V = BlockView;

    open spec fn view(&self) -> BlockView {
        BlockView { path: self.path@, name: self.name@, size_bytes: self.size_bytes as int }
    }
}

/// What sysfs says below a disk: the name, whether it is a partition, and the
/// contents of its `size` file, if it could be read.
#[derive(Debug)]
pub struct SysChild {
    pub name: Vec<u8>,
    pub is_partition: bool,
    pub size: Option<String>,
}

/// What sysfs says of a disk: its name, the contents of its `size` file, if it
/// could be read, and what is below it, which is nothing if it could not be
/// listed.
#[derive(Debug)]
pub struct SysDisk {
    pub name: Vec<u8>,
    pub size: Option<String>,
    pub children: Vec<SysChild>,
}

/// The number of sectors that a `size` file tells.
pub open spec fn sectors(size: Option<String>) -> nat {
    match size {
        Some(text) => match bounded_number(trimmed(text@), u64::MAX as nat) {
            Some(n) => n,
            None => 0,
        },
        None => 0,
    }
}

/// Whether the size of a device in bytes can be told.
pub open spec fn size_fits(size: Option<String>) -> bool {
    sectors(size) * 512 <= u64::MAX
}

/// Whether the sizes of a disk and of what is below it can be told in bytes.
pub open spec fn sizes_fit(d: SysDisk) -> bool {
    &&& size_fits(d.size)
    &&& forall|i: int|
        0 <= i < d.children@.len() ==> size_fits((#[trigger] d.children@[i]).size)
}

/// The device with the given name and size.
pub open spec fn block_device(name: Seq<u8>, size: Option<String>) -> BlockView {
    BlockView {
        path: joined(encode_utf8("/dev"@), encode_utf8(utf8_lossy(name))),
        name: utf8_lossy(name),
        size_bytes: (sectors(size) * 512) as int,
    }
}

/// The device as a sequence, if it holds anything.
pub open spec fn if_any(name: Seq<u8>, size: Option<String>) -> Seq<BlockView> {
    if sectors(size) > 0 {
        seq![block_device(name, size)]
    } else {
        Seq::empty()
    }
}

/// The partitions among the first `n` children of a disk that hold anything.
pub open spec fn partitions(children: Seq<SysChild>, n: int) -> Seq<BlockView>
    decreases n,
{
    if n <= 0 {
        Seq::empty()
    } else if children[n - 1].is_partition {
        partitions(children, n - 1) + if_any(children[n - 1].name@, children[n - 1].size)
    } else {
        partitions(children, n - 1)
    }
}

/// Whether a disk has partitions.
pub open spec fn has_partitions(children: Seq<SysChild>, n: int) -> bool {
    exists|i: int| 0 <= i < n && (#[trigger] children[i]).is_partition
}

/// Whether a disk is left out: RAM disks and loop devices are.
pub open spec fn is_skipped(name: Seq<char>) -> bool {
    "ram"@.is_prefix_of(name) || "loop"@.is_prefix_of(name)
}

/// The devices of a disk: its partitions, or the disk itself if it has none.
pub open spec fn disk_devices(d: SysDisk) -> Seq<BlockView> {
    if is_skipped(utf8_lossy(d.name@)) {
        Seq::empty()
    } else if has_partitions(d.children@, d.children@.len() as int) {
        partitions(d.children@, d.children@.len() as int)
    } else {
        if_any(d.name@, d.size)
    }
}

/// The devices of the first `n` disks.
pub open spec fn all_devices(disks: Seq<SysDisk>, n: int) -> Seq<BlockView>
    decreases n,
{
    if n <= 0 {
        Seq::empty()
    } else {
        all_devices(disks, n - 1) + disk_devices(disks[n - 1])
    }
}

/// Devices are ordered by their names.
pub open spec fn device_order() -> spec_fn(BlockView, BlockView) -> bool {
    |a: BlockView, b: BlockView| bytes_before(encode_utf8(a.name), encode_utf8(b.name))
}

impl Ranked for BlockDevice {
    open spec fn order() -> spec_fn(BlockView, BlockView) -> bool {
        device_order()
    }

    fn goes_before(&self, other: &Self) -> (r: bool) {
        bytes_go_before(self.name.as_str().as_bytes(), other.name.as_str().as_bytes())
    }
}

/// Whether a text starts with another.
fn starts_with(s: &str, prefix: &str) -> (r: bool)
    ensures
        r == prefix@.is_prefix_of(s@),
{
    let a = chars_of(s);
    let b = chars_of(prefix);
    chars_start_with(a.as_slice(), b.as_slice())
}

fn chars_start_with(a: &[char], b: &[char]) -> (r: bool)
    ensures
        r == b@.is_prefix_of(a@),
{
    if b.len() > a.len() {
        return false;
    }
    let mut i: usize = 0;
    while i < b.len()
        invariant
            i <= b@.len() <= a@.len(),
            forall|k: int| 0 <= k < i ==> a@[k] == b@[k],
        decreases b@.len() - i,
    {
        if a[i] != b[i] {
            assert(a@.subrange(0, b@.len() as int)[i as int] == a@[i as int]);
            return false;
        }
        i = i + 1;
    }
    assert(b@ =~= a@.subrange(0, b@.len() as int));
    true
}

/// Device size in bytes, from the contents of the sysfs `size` file, which counts
/// sectors of 512 bytes.
pub fn read_sysfs_size(size: &Option<String>) -> (r: u64)
    requires
        size_fits(*size),
    ensures
        r == sectors(*size) * 512,
{
    match size {
        Some(text) => {
            let number = trim_text(text.as_str());
            match parse_number(number.as_str(), u64::MAX) {
                Some(n) => n * 512,
                None => 0,
            }
        },
        None => 0,
    }
}

fn push_device(out: &mut Vec<BlockDevice>, name: &Vec<u8>, size: &Option<String>)
    requires
        size_fits(*size),
    ensures
        views(final(out)@) == views(old(out)@) + if_any(name@, *size),
{
    let size_bytes: u64 = read_sysfs_size(size);
    if size_bytes > 0 {
        let name = lossy_text(name.as_slice());
        let dev = BlockDevice {
            path: BootPath::from_text("/dev").join(name.as_str().as_bytes()),
            name,
            size_bytes,
        };
        out.push(dev);
        assert(views(out@) =~= views(old(out)@) + seq![dev@]);
    }
    assert(views(out@) =~= views(old(out)@) + if_any(name@, *size));
}

fn push_disk(out: &mut Vec<BlockDevice>, disk: &SysDisk)
    requires
        sizes_fit(*disk),
    ensures
        views(final(out)@) == views(old(out)@) + disk_devices(*disk),
{
    let name = lossy_text(disk.name.as_slice());
    if starts_with(name.as_str(), "ram") || starts_with(name.as_str(), "loop") {
        assert(views(out@) =~= views(old(out)@) + disk_devices(*disk));
        return;
    }
    let ghost start = views(out@);
    let ghost c = disk.children@;
    let mut any = false;
    let mut i: usize = 0;
    assert(start =~= start + partitions(c, 0));
    while i < disk.children.len()
        invariant
            i <= c.len(),
            c == disk.children@,
            sizes_fit(*disk),
            any == has_partitions(c, i as int),
            views(out@) == start + partitions(c, i as int),
            !any ==> views(out@) == start,
        decreases c.len() - i,
    {
        let child = &disk.children[i];
        assert(size_fits(c[i as int].size));
        proof {
            if has_partitions(c, i as int) {
                let k = choose|k: int| 0 <= k < i && (#[trigger] c[k]).is_partition;
                assert(c[k].is_partition);
            }
        }
        if child.is_partition {
            any = true;
            push_device(out, &child.name, &child.size);
            assert(c[i as int].is_partition);
        }
        assert(views(out@) =~= start + partitions(c, i + 1));
        i = i + 1;
    }
    if !any {
        push_device(out, &disk.name, &disk.size);
    }
    assert(views(out@) =~= start + disk_devices(*disk));
}

/// The block devices that sysfs tells of.
///
/// Returns partition devices (e.g. /dev/sda1, /dev/nvme0n1p1) and
/// whole-disk devices that have no partitions (e.g. /dev/vda with a
/// filesystem directly on it).
pub fn enumerate_block_devices(disks: &Vec<SysDisk>) -> (r: Vec<BlockDevice>)
    requires
        forall|i: int| 0 <= i < disks@.len() ==> sizes_fit(#[trigger] disks@[i]),
    ensures
        views(r@) == sorted(all_devices(disks@, disks@.len() as int), device_order()),
{
    let mut out: Vec<BlockDevice> = Vec::new();
    let mut i: usize = 0;
    assert(views(out@) =~= all_devices(disks@, 0));
    while i < disks.len()
        invariant
            i <= disks@.len(),
            forall|k: int| 0 <= k < disks@.len() ==> sizes_fit(#[trigger] disks@[k]),
            views(out@) == all_devices(disks@, i as int),
        decreases disks@.len() - i,
    {
        assert(sizes_fit(disks@[i as int]));
        push_disk(&mut out, &disks[i]);
        i = i + 1;
    }
    stable_sort(out)
}

// --- Names of devices ---

/// A link in a directory such as /dev/disk/by-uuid: its name, and what it points
/// at, if it could be read.
#[derive(Debug)]
pub struct DiskLink {
    pub name: Vec<u8>,
    pub target: Option<BootPath>,
}

/// Whether a link points at the device with the given name.
pub open spec fn points_at(link: DiskLink, dev_name: Seq<char>) -> bool {
    match link.target {
        Some(target) => match file_name_of(target@) {
            Some(n) => utf8_lossy(n) == dev_name,
            None => false,
        },
        None => false,
    }
}

/// The name of the first link, from `from` on, that points at a device.
pub open spec fn link_name(links: Seq<DiskLink>, dev_name: Seq<char>, from: int) -> Option<
    Seq<char>,
>
    decreases links.len() - from,
{
    if from < 0 || from >= links.len() {
        None
    } else if points_at(links[from], dev_name) {
        Some(utf8_lossy(links[from].name@))
    } else {
        link_name(links, dev_name, from + 1)
    }
}

fn find_link(links: &[DiskLink], dev_name: &str) -> (r: Option<String>)
    ensures
        opt_text(r) == link_name(links@, dev_name@, 0),
{
    let mut i: usize = 0;
    while i < links.len()
        invariant
            i <= links@.len(),
            link_name(links@, dev_name@, 0) == link_name(links@, dev_name@, i as int),
        decreases links@.len() - i,
    {
        if let Some(target) = &links[i].target {
            if let Some(n) = target.file_name() {
                if same_text(lossy_text(n.as_slice()).as_str(), dev_name) {
                    return Some(lossy_text(links[i].name.as_slice()));
                }
            }
        }
        i = i + 1;
    }
    None
}

/// The partition label (GPT PARTLABEL) of a device, from the links in
/// /dev/disk/by-partlabel.
pub fn read_partition_label(dev_name: &str, links: &[DiskLink]) -> (r: Option<String>)
    ensures
        opt_text(r) == link_name(links@, dev_name@, 0),
{
    find_link(links, dev_name)
}

/// The UUID of a device, from the links in /dev/disk/by-uuid.
pub fn read_device_uuid(dev_name: &str, links: &[DiskLink]) -> (r: Option<String>)
    ensures
        opt_text(r) == link_name(links@, dev_name@, 0),
{
    find_link(links, dev_name)
}

/// The first of several names that there is, else the last one.
pub open spec fn first_name(
    part_label: Option<Seq<char>>,
    fs_label: Option<Seq<char>>,
    uuid: Option<Seq<char>>,
    name: Seq<char>,
) -> Seq<char> {
    match part_label {
        Some(l) => l,
        None => match fs_label {
            Some(l) => l,
            None => match uuid {
                Some(u) => u,
                None => name,
            },
        },
    }
}

/// Best label for a device: partition label > fs label > UUID > device name.
pub fn best_label(
    dev: &BlockDevice,
    fs_label: Option<String>,
    part_labels: &[DiskLink],
    uuids: &[DiskLink],
) -> (r: String)
    ensures
        r@ == first_name(
            link_name(part_labels@, dev@.name, 0),
            opt_text(fs_label),
            link_name(uuids@, dev@.name, 0),
            dev@.name,
        ),
{
    if let Some(label) = read_partition_label(dev.name.as_str(), part_labels) {
        return label;
    }
    if let Some(label) = fs_label {
        return label;
    }
    if let Some(uuid) = read_device_uuid(dev.name.as_str(), uuids) {
        return uuid;
    }
    dev.name.clone()
}

// --- Disk whitelist ---

/// A pattern without the "/dev/" that it may start with.
pub open spec fn bare_pattern(pattern: Seq<char>) -> Seq<char> {
    if "/dev/"@.is_prefix_of(pattern) {
        pattern.skip("/dev/"@.len() as int)
    } else {
        pattern
    }
}

/// Whether a device name matches a pattern: it is the same, or, where the pattern
/// ends in an asterisk, it starts with what stands before.
pub open spec fn matches_pattern(pattern: Seq<char>, dev_name: Seq<char>) -> bool {
    let pat = bare_pattern(pattern);
    if pat.len() > 0 && pat.last() == '*' {
        pat.drop_last().is_prefix_of(dev_name)
    } else {
        dev_name == pat
    }
}

/// Check whether a device name matches a whitelist pattern.
/// Patterns: exact match or prefix glob (e.g. "nvme*" matches "nvme0n1p1").
/// A "/dev/" prefix on the pattern is stripped before matching.
pub fn pattern_matches(pattern: &str, dev_name: &str) -> (r: bool)
    ensures
        r == matches_pattern(pattern@, dev_name@),
{
    let name = chars_of(dev_name);
    let pattern = chars_of(pattern);
    let head = chars_of("/dev/");
    let start: usize = if chars_start_with(pattern.as_slice(), head.as_slice()) {
        head.len()
    } else {
        0
    };
    let pat = slice_subrange(pattern.as_slice(), start, pattern.len());
    assert(pat@ =~= bare_pattern(pattern@));
    if pat.len() > 0 && pat[pat.len() - 1] == '*' {
        let prefix = slice_subrange(pat, 0, pat.len() - 1);
        assert(prefix@ =~= pat@.drop_last());
        return chars_start_with(name.as_slice(), prefix);
    }
    if name.len() != pat.len() {
        return false;
    }
    let same = chars_start_with(name.as_slice(), pat);
    proof {
        assert(name@.subrange(0, name@.len() as int) =~= name@);
    }
    same
}

/// Whether one of the patterns in a list, from position `from` on, matches. The
/// patterns are separated by commas; white space around them does not count.
/// `start` is where the current pattern starts.
pub open spec fn any_matches(list: Seq<char>, dev_name: Seq<char>, start: int, from: int) -> bool
    decreases list.len() - from,
{
    if from < 0 || from >= list.len() {
        matches_pattern(trimmed(list.subrange(start, list.len() as int)), dev_name)
    } else if list[from] == ',' {
        matches_pattern(trimmed(list.subrange(start, from)), dev_name) || any_matches(
            list,
            dev_name,
            from + 1,
            from + 1,
        )
    } else {
        any_matches(list, dev_name, start, from + 1)
    }
}

/// Whether a device may be used. Without a whitelist, or with an empty one, every
/// device may.
pub open spec fn is_allowed(dev_name: Seq<char>, whitelist: Option<Seq<char>>) -> bool {
    match whitelist {
        None => true,
        Some(list) => list.len() == 0 || any_matches(list, dev_name, 0, 0),
    }
}

/// Check whether a device name is allowed by the whitelist.
/// Returns true if no whitelist is configured (allow all).
pub fn device_allowed(dev_name: &str, whitelist: &Option<String>) -> (r: bool)
    ensures
        r == is_allowed(dev_name@, opt_text(*whitelist)),
{
    let list = match whitelist {
        Some(list) => chars_of(list.as_str()),
        None => {
            return true;
        },
    };
    if list.len() == 0 {
        return true;
    }
    let mut start: usize = 0;
    let mut i: usize = 0;
    while i < list.len()
        invariant
            whitelist matches Some(w) && w@ == list@ && w@.len() > 0,
            start <= i <= list@.len(),
            any_matches(list@, dev_name@, 0, 0) == any_matches(
                list@,
                dev_name@,
                start as int,
                i as int,
            ),
        decreases list@.len() - i,
    {
        if list[i] == ',' {
            if part_matches(list.as_slice(), start, i, dev_name) {
                return true;
            }
            start = i + 1;
        }
        i = i + 1;
    }
    part_matches(list.as_slice(), start, list.len(), dev_name)
}

fn part_matches(list: &[char], start: usize, end: usize, dev_name: &str) -> (r: bool)
    requires
        start <= end <= list@.len(),
    ensures
        r == matches_pattern(trimmed(list@.subrange(start as int, end as int)), dev_name@),
{
    let one = text_of(slice_subrange(list, start, end));
    assert(one@ =~= list@.subrange(start as int, end as int));
    let pattern = trim_text(one.as_str());
    pattern_matches(pattern.as_str(), dev_name)
}

// --- Laws ---

/// Whether a device is the one that sysfs tells of by the given name and size: it
/// holds something, it is found as /dev/<name>, and its size is that of its sectors.
pub open spec fn is_told_of(b: BlockView, name: Seq<u8>, size: Option<String>) -> bool {
    &&& sectors(size) > 0
    &&& b.name == utf8_lossy(name)
    &&& b.path == joined(encode_utf8("/dev"@), encode_utf8(utf8_lossy(name)))
    &&& b.size_bytes == 512 * sectors(size)
}

proof fn lemma_if_any(b: BlockView, name: Seq<u8>, size: Option<String>)
    ensures
        if_any(name, size).contains(b) <==> is_told_of(b, name, size),
{
    let s = if_any(name, size);
    if is_told_of(b, name, size) {
        assert(s[0] == b);
    }
}

proof fn lemma_contains_either<V>(a: Seq<V>, b: Seq<V>, x: V)
    ensures
        (a + b).contains(x) <==> a.contains(x) || b.contains(x),
{
    if a.contains(x) {
        let k = choose|k: int| 0 <= k < a.len() && a[k] == x;
        assert((a + b)[k] == x);
    }
    if b.contains(x) {
        let k = choose|k: int| 0 <= k < b.len() && b[k] == x;
        assert((a + b)[a.len() + k] == x);
    }
    if (a + b).contains(x) {
        let k = choose|k: int| 0 <= k < (a + b).len() && (a + b)[k] == x;
        assert(if k < a.len() {
            a[k] == x
        } else {
            b[k - a.len()] == x
        });
    }
}

proof fn lemma_partitions(children: Seq<SysChild>, n: int, b: BlockView)
    requires
        0 <= n <= children.len(),
    ensures
        partitions(children, n).contains(b) <==> exists|c: int|
            0 <= c < n && (#[trigger] children[c]).is_partition && is_told_of(
                b,
                children[c].name@,
                children[c].size,
            ),
    decreases n,
{
    if n > 0 {
        let last = children[n - 1];
        lemma_partitions(children, n - 1, b);
        lemma_if_any(b, last.name@, last.size);
        lemma_contains_either(partitions(children, n - 1), if_any(last.name@, last.size), b);
        if partitions(children, n).contains(b) && partitions(children, n - 1).contains(b) {
            let c = choose|c: int|
                0 <= c < n - 1 && (#[trigger] children[c]).is_partition && is_told_of(
                    b,
                    children[c].name@,
                    children[c].size,
                );
            assert(children[c].is_partition);
        }
    }
}

/// Whether a device is among those of a disk: it is a partition of the disk that
/// holds something, or the disk itself if it has no partition and holds something.
pub open spec fn is_on(b: BlockView, d: SysDisk) -> bool {
    ||| exists|c: int|
        0 <= c < d.children@.len() && (#[trigger] d.children@[c]).is_partition && is_told_of(
            b,
            d.children@[c].name@,
            d.children@[c].size,
        )
    ||| is_told_of(b, d.name@, d.size) && forall|c: int|
        0 <= c < d.children@.len() ==> !(#[trigger] d.children@[c]).is_partition
}

proof fn lemma_all_devices(disks: Seq<SysDisk>, n: int, b: BlockView)
    requires
        0 <= n <= disks.len(),
    ensures
        all_devices(disks, n).contains(b) <==> exists|d: int|
            0 <= d < n && !"ram"@.is_prefix_of(utf8_lossy(disks[d].name@))
                && !"loop"@.is_prefix_of(utf8_lossy(disks[d].name@)) && #[trigger] is_on(
                b,
                disks[d],
            ),
    decreases n,
{
    if n > 0 {
        let last = disks[n - 1];
        lemma_all_devices(disks, n - 1, b);
        lemma_partitions(last.children@, last.children@.len() as int, b);
        lemma_if_any(b, last.name@, last.size);
        lemma_contains_either(all_devices(disks, n - 1), disk_devices(last), b);
        assert(disk_devices(last).contains(b) <==> !"ram"@.is_prefix_of(utf8_lossy(last.name@))
            && !"loop"@.is_prefix_of(utf8_lossy(last.name@)) && is_on(b, last));
        if all_devices(disks, n - 1).contains(b) {
            let d = choose|d: int|
                0 <= d < n - 1 && !"ram"@.is_prefix_of(utf8_lossy(disks[d].name@))
                    && !"loop"@.is_prefix_of(utf8_lossy(disks[d].name@)) && #[trigger] is_on(
                    b,
                    disks[d],
                );
            assert(is_on(b, disks[d]));
        }
        if disk_devices(last).contains(b) {
            assert(is_on(b, disks[n - 1]));
        }
    }
}

/// The devices that are listed are those on the disks whose names start with neither
/// "ram" nor "loop", every one of them and no other.
pub proof fn every_device_is_listed(disks: Seq<SysDisk>, b: BlockView)
    ensures
        sorted(all_devices(disks, disks.len() as int), device_order()).contains(b) <==> exists|
            d: int,
        |
            0 <= d < disks.len() && !"ram"@.is_prefix_of(utf8_lossy(disks[d].name@))
                && !"loop"@.is_prefix_of(utf8_lossy(disks[d].name@)) && #[trigger] is_on(
                b,
                disks[d],
            ),
{
    let all = all_devices(disks, disks.len() as int);
    lemma_all_devices(disks, disks.len() as int, b);
    sorted_keeps_elements(all, device_order(), b);
}

/// A partition that holds something is listed, whatever the disk is called, as long
/// as its name starts with neither "ram" nor "loop"; so is a disk without partitions.
pub proof fn partitions_and_bare_disks_are_listed(disks: Seq<SysDisk>, d: int, c: int)
    requires
        0 <= d < disks.len(),
        !"ram"@.is_prefix_of(utf8_lossy(disks[d].name@)),
        !"loop"@.is_prefix_of(utf8_lossy(disks[d].name@)),
    ensures
        ({
            let r = sorted(all_devices(disks, disks.len() as int), device_order());
            let child = disks[d].children@[c];
            &&& 0 <= c < disks[d].children@.len() && child.is_partition && sectors(child.size) > 0
                ==> r.contains(
                BlockView {
                    path: joined(encode_utf8("/dev"@), encode_utf8(utf8_lossy(child.name@))),
                    name: utf8_lossy(child.name@),
                    size_bytes: 512 * sectors(child.size) as int,
                },
            )
            &&& sectors(disks[d].size) > 0 && (forall|k: int|
                0 <= k < disks[d].children@.len() ==> !(
                #[trigger] disks[d].children@[k]).is_partition) ==> r.contains(
                BlockView {
                    path: joined(encode_utf8("/dev"@), encode_utf8(utf8_lossy(disks[d].name@))),
                    name: utf8_lossy(disks[d].name@),
                    size_bytes: 512 * sectors(disks[d].size) as int,
                },
            )
        }),
{
    let child = disks[d].children@[c];
    let part = BlockView {
        path: joined(encode_utf8("/dev"@), encode_utf8(utf8_lossy(child.name@))),
        name: utf8_lossy(child.name@),
        size_bytes: 512 * sectors(child.size) as int,
    };
    let whole = BlockView {
        path: joined(encode_utf8("/dev"@), encode_utf8(utf8_lossy(disks[d].name@))),
        name: utf8_lossy(disks[d].name@),
        size_bytes: 512 * sectors(disks[d].size) as int,
    };
    if 0 <= c < disks[d].children@.len() && child.is_partition && sectors(child.size) > 0 {
        assert(is_told_of(part, child.name@, child.size));
        assert(is_on(part, disks[d]));
        every_device_is_listed(disks, part);
    }
    if sectors(disks[d].size) > 0 && (forall|k: int|
        0 <= k < disks[d].children@.len() ==> !(#[trigger] disks[d].children@[k]).is_partition) {
        assert(is_told_of(whole, disks[d].name@, disks[d].size));
        assert(is_on(whole, disks[d]));
        every_device_is_listed(disks, whole);
    }
}

/// Devices are listed in the order of their names, byte by byte, and as often as
/// they were told of.
pub proof fn devices_in_name_order(disks: Seq<SysDisk>, i: int, j: int)
    requires
        0 <= i < j < all_devices(disks, disks.len() as int).len(),
    ensures
        ({
            let r = sorted(all_devices(disks, disks.len() as int), device_order());
            &&& r.len() == all_devices(disks, disks.len() as int).len()
            &&& !bytes_before(encode_utf8(r[j].name), encode_utf8(r[i].name))
        }),
{
    let before = device_order();
    assert forall|a: BlockView, b: BlockView| #[trigger] before(a, b) implies !before(b, a) by {
        bytes_order_total(encode_utf8(a.name), encode_utf8(b.name));
    }
    assert forall|a: BlockView, b: BlockView, c: BlockView|
        #![trigger before(a, b), before(b, c)]
        before(a, c) implies before(a, b) || before(b, c) by {
        let x = encode_utf8(a.name);
        let y = encode_utf8(b.name);
        let z = encode_utf8(c.name);
        bytes_order_total(x, y);
        bytes_order_total(y, z);
        bytes_order_total(x, z);
        if !before(a, b) && !before(b, c) {
            if x != y && y != z {
                bytes_order_transitive(z, y, x);
            }
        }
    }
    sorted_is_ordered_rearrangement(all_devices(disks, disks.len() as int), before);
}

/// A size file that holds a number, with white space around it or not, tells that
/// number of sectors; one that could not be read, or that holds anything else, tells
/// of none.
pub proof fn size_file_tells_sectors(text: String, n: nat, before: Seq<char>, after: Seq<char>)
    ensures
        sectors(None) == 0,
        text@ == before + decimal(n) + after && (forall|i: int|
            0 <= i < before.len() ==> is_white_space(#[trigger] before[i])) && (forall|i: int|
            0 <= i < after.len() ==> is_white_space(#[trigger] after[i])) && n <= u64::MAX
            ==> sectors(Some(text)) == n,
        number(trimmed(text@)) is None ==> sectors(Some(text)) == 0,
{
    if (forall|i: int| 0 <= i < before.len() ==> is_white_space(#[trigger] before[i])) && (forall|
        i: int,
    |
        0 <= i < after.len() ==> is_white_space(#[trigger] after[i])) {
        decimal_is_read_back(n);
        trimming_drops_outer_space(before, decimal(n), after);
    }
}

/// A device is known by the first link that points at it, and by none if none does.
pub proof fn first_link_names_a_device(links: Seq<DiskLink>, dev_name: Seq<char>)
    ensures
        link_name(links, dev_name, 0) matches Some(name) ==> exists|k: int, target: BootPath|
            {
                &&& 0 <= k < links.len()
                &&& (#[trigger] links[k]).target == Some(target)
                &&& (#[trigger] file_name_of(target@)) matches Some(n) && utf8_lossy(n) == dev_name
                &&& name == utf8_lossy(links[k].name@)
                &&& forall|i: int, other: BootPath|
                    0 <= i < k && (#[trigger] links[i]).target == Some(other) ==> ((
                    #[trigger] file_name_of(other@)) matches Some(m) ==> utf8_lossy(m) != dev_name)
            },
        link_name(links, dev_name, 0) is None ==> forall|i: int, other: BootPath|
            0 <= i < links.len() && (#[trigger] links[i]).target == Some(other) ==> ((
            #[trigger] file_name_of(other@)) matches Some(m) ==> utf8_lossy(m) != dev_name),
{
    lemma_link_name(links, dev_name, 0);
    if let Some(name) = link_name(links, dev_name, 0) {
        let k = choose|k: int|
            0 <= k < links.len() && #[trigger] points_at(links[k], dev_name) && name == utf8_lossy(
                links[k].name@,
            ) && forall|i: int| 0 <= i < k ==> !#[trigger] points_at(links[i], dev_name);
        let target = links[k].target->0;
        assert(links[k].target == Some(target));
        assert(file_name_of(target@) matches Some(n) && utf8_lossy(n) == dev_name);
        assert forall|i: int, other: BootPath|
            0 <= i < k && (#[trigger] links[i]).target == Some(other) implies ((
        #[trigger] file_name_of(other@)) matches Some(m) ==> utf8_lossy(m) != dev_name) by {
            assert(!points_at(links[i], dev_name));
        }
    } else {
        assert forall|i: int, other: BootPath|
            0 <= i < links.len() && (#[trigger] links[i]).target == Some(other) implies ((
        #[trigger] file_name_of(other@)) matches Some(m) ==> utf8_lossy(m) != dev_name) by {
            assert(!points_at(links[i], dev_name));
        }
    }
}

proof fn lemma_link_name(links: Seq<DiskLink>, dev_name: Seq<char>, from: int)
    requires
        0 <= from,
    ensures
        link_name(links, dev_name, from) matches Some(name) ==> exists|k: int|
            from <= k < links.len() && #[trigger] points_at(links[k], dev_name) && name
                == utf8_lossy(links[k].name@) && forall|i: int|
                from <= i < k ==> !#[trigger] points_at(links[i], dev_name),
        link_name(links, dev_name, from) is None ==> forall|i: int|
            from <= i < links.len() ==> !#[trigger] points_at(links[i], dev_name),
    decreases links.len() - from,
{
    if from < links.len() {
        if points_at(links[from], dev_name) {
            assert(points_at(links[from], dev_name));
        } else {
            lemma_link_name(links, dev_name, from + 1);
            if let Some(name) = link_name(links, dev_name, from + 1) {
                let k = choose|k: int|
                    from + 1 <= k < links.len() && #[trigger] points_at(links[k], dev_name) && name
                        == utf8_lossy(links[k].name@) && forall|i: int|
                        from + 1 <= i < k ==> !#[trigger] points_at(links[i], dev_name);
                assert(points_at(links[k], dev_name));
            }
        }
    }
}

/// Where a link points at a device, the device is known by the name of a link.
pub proof fn linked_device_is_known(links: Seq<DiskLink>, dev_name: Seq<char>, k: int)
    requires
        0 <= k < links.len(),
        links[k].target matches Some(target) && file_name_of(target@) matches Some(n) && utf8_lossy(
            n,
        ) == dev_name,
    ensures
        link_name(links, dev_name, 0) is Some,
        (forall|i: int, other: BootPath|
            0 <= i < k && (#[trigger] links[i]).target == Some(other) ==> ((
            #[trigger] file_name_of(other@)) matches Some(m) ==> utf8_lossy(m) != dev_name))
            ==> link_name(links, dev_name, 0) == Some(utf8_lossy(links[k].name@)),
{
    lemma_link_name(links, dev_name, 0);
    assert(points_at(links[k], dev_name));
    if forall|i: int, other: BootPath|
        0 <= i < k && (#[trigger] links[i]).target == Some(other) ==> ((
        #[trigger] file_name_of(other@)) matches Some(m) ==> utf8_lossy(m) != dev_name) {
        assert forall|i: int| 0 <= i < k implies !#[trigger] points_at(links[i], dev_name) by {
            if let Some(other) = links[i].target {
                assert(links[i].target == Some(other));
                assert(file_name_of(other@) matches Some(m) ==> utf8_lossy(m) != dev_name);
            }
        }
    }
}

/// The label of the partition goes before that of the filesystem, that before the
/// UUID, and only a device without any of them is called by its own name.
pub proof fn labels_have_their_order(
    part_label: Option<Seq<char>>,
    fs_label: Option<Seq<char>>,
    uuid: Option<Seq<char>>,
    name: Seq<char>,
    label: Seq<char>,
)
    ensures
        first_name(Some(label), fs_label, uuid, name) == label,
        first_name(None, Some(label), uuid, name) == label,
        first_name(None, None, Some(label), name) == label,
        first_name(None, None, None, name) == name,
        first_name(part_label, fs_label, uuid, name) != name ==> part_label is Some || fs_label
            is Some || uuid is Some,
{
}

/// A pattern is met by the device of that name alone, or, with an asterisk at its
/// end, by all whose names start with what stands before; "/dev/" may stand in front.
pub proof fn patterns_match_names(p: Seq<char>, dev_name: Seq<char>)
    ensures
        matches_pattern("/dev/"@ + p.push('*'), dev_name) <==> p.is_prefix_of(dev_name),
        !(p.len() > 0 && p.last() == '*') ==> (matches_pattern("/dev/"@ + p, dev_name) <==> dev_name
            == p),
        !"/dev/"@.is_prefix_of(p) ==> (matches_pattern(p.push('*'), dev_name)
            <==> p.is_prefix_of(dev_name)),
        !"/dev/"@.is_prefix_of(p) && !(p.len() > 0 && p.last() == '*') ==> (matches_pattern(
            p,
            dev_name,
        ) <==> dev_name == p),
{
    reveal_strlit("/dev/");
    let d = "/dev/"@;
    let q = p.push('*');
    assert(q.drop_last() =~= p);
    assert((d + q).take(5) =~= d && (d + q).skip(5) =~= q);
    assert((d + p).take(5) =~= d && (d + p).skip(5) =~= p);
    if d.is_prefix_of(q) && !d.is_prefix_of(p) {
        assert(q[4] == '/') by {
            assert(q.subrange(0, 5)[4] == d[4]);
        }
        assert(p.len() >= 5);
        assert(p.subrange(0, 5) =~= q.subrange(0, 5));
    }
}

proof fn lemma_any_matches_shifted(
    a: Seq<char>,
    b: Seq<char>,
    dev_name: Seq<char>,
    start: int,
    from: int,
)
    requires
        0 <= start <= from <= b.len(),
    ensures
        any_matches(a + b, dev_name, a.len() + start, a.len() + from) == any_matches(
            b,
            dev_name,
            start,
            from,
        ),
    decreases b.len() - from,
{
    let list = a + b;
    assert(list.subrange(a.len() + start, a.len() + from) =~= b.subrange(start, from));
    assert(list.subrange(a.len() + start, list.len() as int) =~= b.subrange(
        start,
        b.len() as int,
    ));
    if from < b.len() {
        assert(list[a.len() + from] == b[from]);
        if b[from] == ',' {
            lemma_any_matches_shifted(a, b, dev_name, from + 1, from + 1);
        } else {
            lemma_any_matches_shifted(a, b, dev_name, start, from + 1);
        }
    }
}

proof fn lemma_any_matches_split(
    a: Seq<char>,
    b: Seq<char>,
    dev_name: Seq<char>,
    start: int,
    from: int,
)
    requires
        0 <= start <= from <= a.len(),
    ensures
        any_matches(a.push(',') + b, dev_name, start, from) == (any_matches(
            a,
            dev_name,
            start,
            from,
        ) || any_matches(b, dev_name, 0, 0)),
    decreases a.len() - from,
{
    let list = a.push(',') + b;
    assert(list.subrange(start, from) =~= a.subrange(start, from));
    if from < a.len() {
        assert(list[from] == a[from]);
        if a[from] == ',' {
            lemma_any_matches_split(a, b, dev_name, from + 1, from + 1);
        } else {
            lemma_any_matches_split(a, b, dev_name, start, from + 1);
        }
    } else {
        assert(list[from] == ',');
        lemma_any_matches_shifted(a.push(','), b, dev_name, 0, 0);
    }
}

proof fn lemma_one_pattern(p: Seq<char>, dev_name: Seq<char>, from: int)
    requires
        !p.contains(','),
        0 <= from <= p.len(),
    ensures
        any_matches(p, dev_name, 0, from) == matches_pattern(trimmed(p), dev_name),
    decreases p.len() - from,
{
    if from < p.len() {
        assert(p[from] != ',');
        lemma_one_pattern(p, dev_name, from + 1);
    } else {
        assert(p.subrange(0, p.len() as int) =~= p);
    }
}

/// A whitelist admits a device exactly if one of its patterns, set apart by commas,
/// does; white space around a pattern does not count. No whitelist, or an empty one,
/// admits every device.
pub proof fn whitelist_admits_by_any_pattern(a: Seq<char>, b: Seq<char>, dev_name: Seq<char>)
    ensures
        is_allowed(dev_name, None),
        is_allowed(dev_name, Some(Seq::empty())),
        a.len() > 0 && b.len() > 0 ==> (is_allowed(dev_name, Some(a.push(',') + b)) <==> is_allowed(
            dev_name,
            Some(a),
        ) || is_allowed(dev_name, Some(b))),
        a.len() > 0 && !a.contains(',') ==> (is_allowed(dev_name, Some(a)) <==> matches_pattern(
            trimmed(a),
            dev_name,
        )),
{
    lemma_any_matches_split(a, b, dev_name, 0, 0);
    if !a.contains(',') {
        lemma_one_pattern(a, dev_name, 0);
    }
}

} // verus!
