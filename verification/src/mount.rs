//! Filesystems: how their type, label and membership are read from superblocks,
//! and how the devices of one filesystem are put together.

use vstd::prelude::*;
use vstd::slice::slice_subrange;
use vstd::utf8::{encode_utf8, encode_utf8_decode_utf8, encode_utf8_valid_utf8};

use crate::path::{path_before, path_order_total, path_order_transitive, BootPath};
use crate::sort::{
    pairwise, place_before_sorting, sorted, sorted_is_ordered_rearrangement, sorted_keeps_elements,
    sorted_keeps_length, sorted_keeps_pairwise, sorted_keeps_property, stable_sort, views, Ranked,
};
use crate::text::{
    opt_text, same_bytes, text_from_utf16, text_from_utf8, trim_text, trimmed, utf16_text,
    utf8_text,
};
use crate::tree::io_error;
use crate::types::{Error, ErrorView, IoFailure};

verus! {

// --- Filesystem types ---

#[derive(Debug, Clone, Copy, PartialEq, Eq, Structural)]
pub enum FsType {
    Ext4,
    Btrfs,
    Bcachefs,
    Xfs,
    F2fs,
    Luks,
}

/// What a filesystem is called.
pub open spec fn fs_name(ft: FsType) -> Seq<char> {
    match ft {
        FsType::Ext4 => "ext4"@,
        FsType::Btrfs => "btrfs"@,
        FsType::Bcachefs => "bcachefs"@,
        FsType::Xfs => "xfs"@,
        FsType::F2fs => "f2fs"@,
        FsType::Luks => "crypto_LUKS"@,
    }
}

impl FsType {
    pub fn as_str(&self) -> (r: &'static str)
        ensures
            r@ == fs_name(*self),
    {
        match *self {
            FsType::Ext4 => "ext4",
            FsType::Btrfs => "btrfs",
            FsType::Bcachefs => "bcachefs",
            FsType::Xfs => "xfs",
            FsType::F2fs => "f2fs",
            FsType::Luks => "crypto_LUKS",
        }
    }

    /// Kernel filesystem type string for mount(2).
    /// Returns None for LUKS (not directly mountable).
    pub fn mount_type(&self) -> (r: Option<&'static str>)
        ensures
            match r {
                Some(s) => *self != FsType::Luks && s@ == fs_name(*self),
                None => *self == FsType::Luks,
            },
    {
        match *self {
            FsType::Ext4 => Some("ext4"),
            FsType::Btrfs => Some("btrfs"),
            FsType::Bcachefs => Some("bcachefs"),
            FsType::Xfs => Some("xfs"),
            FsType::F2fs => Some("f2fs"),
            FsType::Luks => None,
        }
    }
}

// --- Reading a device ---

/// A part of a device that is to be read.
#[derive(Debug, Clone, Copy, PartialEq, Eq, Structural)]
pub struct Window {
    pub offset: u64,
    pub len: usize,
}

/// What reading a part of a device gave.
#[derive(Debug)]
pub enum ReadOutcome {
    /// All of it.
    Bytes(Vec<u8>),
    /// The device ends before, or could not be read.
    Unreadable(IoFailure),
    /// The position could not be reached.
    Unreachable(IoFailure),
}

/// Whether an outcome is what reading a window of a device with the given
/// contents gives.
pub open spec fn answers(r: ReadOutcome, image: Seq<u8>, w: Window) -> bool {
    match r {
        ReadOutcome::Bytes(b) => w.offset + w.len <= image.len() && b@ == image.subrange(
            w.offset as int,
            w.offset + w.len,
        ),
        ReadOutcome::Unreadable(_) => w.offset + w.len > image.len(),
        ReadOutcome::Unreachable(_) => false,
    }
}

// --- Filesystem type detection via superblock magic ---

/// How many places are looked at to tell the type of a filesystem.
pub const PROBE_COUNT: usize = 6;

/// The places in the order in which they are looked at: the first that holds its
/// magic number decides.
pub open spec fn probe_window(i: int) -> Window {
    if i == 0 {
        Window { offset: 0, len: 6 }
    } else if i == 1 {
        Window { offset: 0, len: 4 }
    } else if i == 2 {
        Window { offset: 0x438, len: 2 }
    } else if i == 3 {
        Window { offset: 0x400, len: 4 }
    } else if i == 4 {
        Window { offset: 0x1018, len: 4 }
    } else {
        Window { offset: 0x10040, len: 8 }
    }
}

/// The magic number of the type that a place stands for.
pub open spec fn probe_magic(i: int) -> Seq<u8> {
    if i == 0 {
        seq![0x4cu8, 0x55u8, 0x4bu8, 0x53u8, 0xbau8, 0xbeu8]
    } else if i == 1 {
        seq![0x58u8, 0x46u8, 0x53u8, 0x42u8]
    } else if i == 2 {
        seq![0x53u8, 0xefu8]
    } else if i == 3 {
        seq![0x10u8, 0x20u8, 0xf5u8, 0xf2u8]
    } else if i == 4 {
        seq![0xf6u8, 0x73u8, 0x85u8, 0xc6u8]
    } else {
        seq![0x5fu8, 0x42u8, 0x48u8, 0x52u8, 0x66u8, 0x53u8, 0x5fu8, 0x4du8]
    }
}

/// The type that a place stands for.
pub open spec fn probe_type(i: int) -> FsType {
    if i == 0 {
        FsType::Luks
    } else if i == 1 {
        FsType::Xfs
    } else if i == 2 {
        FsType::Ext4
    } else if i == 3 {
        FsType::F2fs
    } else if i == 4 {
        FsType::Bcachefs
    } else {
        FsType::Btrfs
    }
}

/// The type of a filesystem, given what was read from place `i` on.
pub open spec fn probed_from(reads: Seq<ReadOutcome>, i: int) -> Result<Option<FsType>, ErrorView>
    decreases PROBE_COUNT - i,
{
    if i < 0 || i >= PROBE_COUNT {
        Ok(None)
    } else {
        match reads[i] {
            ReadOutcome::Unreachable(f) => Err(io_error(f)),
            ReadOutcome::Bytes(b) => if b@ == probe_magic(i) {
                Ok(Some(probe_type(i)))
            } else {
                probed_from(reads, i + 1)
            },
            ReadOutcome::Unreadable(_) => probed_from(reads, i + 1),
        }
    }
}

/// The type of a filesystem, if its device could be opened.
pub open spec fn probed(reads: Result<Vec<ReadOutcome>, IoFailure>) -> Result<
    Option<FsType>,
    ErrorView,
> {
    match reads {
        Err(f) => Err(io_error(f)),
        Ok(v) => probed_from(v@, 0),
    }
}

/// Whether a result is the given value or the given failure.
pub open spec fn is_outcome<T>(r: Result<T, Error>, m: Result<T, ErrorView>) -> bool {
    match r {
        Ok(v) => m == Ok::<T, ErrorView>(v),
        Err(e) => m == Err::<T, ErrorView>(e@),
    }
}

/// The places that have to be read to tell the type of a filesystem.
pub fn probe_windows() -> (r: Vec<Window>)
    ensures
        r@ == Seq::new(PROBE_COUNT as nat, |i: int| probe_window(i)),
{
    let r = vec![
        Window { offset: 0, len: 6 },
        Window { offset: 0, len: 4 },
        Window { offset: 0x438, len: 2 },
        Window { offset: 0x400, len: 4 },
        Window { offset: 0x1018, len: 4 },
        Window { offset: 0x10040, len: 8 },
    ];
    assert(r@ =~= Seq::new(PROBE_COUNT as nat, |i: int| probe_window(i)));
    r
}

fn magic_of(i: usize) -> (r: Vec<u8>)
    requires
        i < PROBE_COUNT,
    ensures
        r@ == probe_magic(i as int),
{
    let r: Vec<u8> = if i == 0 {
        vec![0x4c, 0x55, 0x4b, 0x53, 0xba, 0xbe]
    } else if i == 1 {
        vec![0x58, 0x46, 0x53, 0x42]
    } else if i == 2 {
        vec![0x53, 0xef]
    } else if i == 3 {
        vec![0x10, 0x20, 0xf5, 0xf2]
    } else if i == 4 {
        vec![0xf6, 0x73, 0x85, 0xc6]
    } else {
        vec![0x5f, 0x42, 0x48, 0x52, 0x66, 0x53, 0x5f, 0x4d]
    };
    assert(r@ =~= probe_magic(i as int));
    r
}

fn type_of(i: usize) -> (r: FsType)
    requires
        i < PROBE_COUNT,
    ensures
        r == probe_type(i as int),
{
    if i == 0 {
        FsType::Luks
    } else if i == 1 {
        FsType::Xfs
    } else if i == 2 {
        FsType::Ext4
    } else if i == 3 {
        FsType::F2fs
    } else if i == 4 {
        FsType::Bcachefs
    } else {
        FsType::Btrfs
    }
}

pub(crate) fn copy_io_error(f: &IoFailure) -> (r: Error)
    ensures
        r@ == io_error(*f),
{
    Error::Io(IoFailure { code: f.code, message: f.message.clone() })
}

/// Probe a block device to detect its filesystem type, given what was read from
/// the places of `probe_windows`, if the device could be opened.
pub fn probe_fs_type(reads: &Result<Vec<ReadOutcome>, IoFailure>) -> (r: Result<
    Option<FsType>,
    Error,
>)
    requires
        reads matches Ok(v) ==> v@.len() == PROBE_COUNT,
    ensures
        is_outcome(r, probed(*reads)),
{
    let v = match reads {
        Ok(v) => v,
        Err(f) => {
            return Err(copy_io_error(f));
        },
    };
    let mut i: usize = 0;
    while i < PROBE_COUNT
        invariant
            i <= PROBE_COUNT,
            v@.len() == PROBE_COUNT,
            reads matches Ok(w) && w == v,
            probed_from(v@, 0) == probed_from(v@, i as int),
        decreases PROBE_COUNT - i,
    {
        match &v[i] {
            ReadOutcome::Unreachable(f) => {
                return Err(copy_io_error(f));
            },
            ReadOutcome::Bytes(b) => {
                if same_bytes(b.as_slice(), magic_of(i).as_slice()) {
                    return Ok(Some(type_of(i)));
                }
            },
            ReadOutcome::Unreadable(_) => {},
        }
        i = i + 1;
    }
    Ok(None)
}

/// Whether a device holds the magic number of place `i`.
pub open spec fn has_magic(image: Seq<u8>, i: int) -> bool {
    let w = probe_window(i);
    w.offset + w.len <= image.len() && image.subrange(w.offset as int, w.offset + w.len)
        == probe_magic(i)
}

/// The type of the filesystem on a device with the given contents.
pub open spec fn detected(image: Seq<u8>) -> Option<FsType> {
    if has_magic(image, 0) {
        Some(FsType::Luks)
    } else if has_magic(image, 1) {
        Some(FsType::Xfs)
    } else if has_magic(image, 2) {
        Some(FsType::Ext4)
    } else if has_magic(image, 3) {
        Some(FsType::F2fs)
    } else if has_magic(image, 4) {
        Some(FsType::Bcachefs)
    } else if has_magic(image, 5) {
        Some(FsType::Btrfs)
    } else {
        None
    }
}

/// Probing a device tells its type by the magic numbers that it holds; an
/// encrypted container comes before anything else.
pub proof fn probing_finds_magic(reads: Vec<ReadOutcome>, image: Seq<u8>)
    requires
        reads@.len() == PROBE_COUNT,
        forall|i: int|
            0 <= i < PROBE_COUNT ==> answers(#[trigger] reads@[i], image, probe_window(i)),
    ensures
        probed(Ok(reads)) == Ok::<Option<FsType>, ErrorView>(detected(image)),
{
    reveal_with_fuel(probed_from, 7);
    assert(answers(reads@[0], image, probe_window(0)));
    assert(answers(reads@[1], image, probe_window(1)));
    assert(answers(reads@[2], image, probe_window(2)));
    assert(answers(reads@[3], image, probe_window(3)));
    assert(answers(reads@[4], image, probe_window(4)));
    assert(answers(reads@[5], image, probe_window(5)));
}

// --- Label reading from superblock ---

/// Where a filesystem keeps its label.
pub open spec fn label_place(ft: FsType) -> Option<Window> {
    match ft {
        FsType::Ext4 => Some(Window { offset: 0x478, len: 16 }),
        FsType::Btrfs => Some(Window { offset: 0x1012b, len: 256 }),
        FsType::Bcachefs => Some(Window { offset: 0x1048, len: 32 }),
        FsType::Xfs => Some(Window { offset: 108, len: 12 }),
        FsType::F2fs => Some(Window { offset: 0x5a0, len: 512 }),
        FsType::Luks => None,
    }
}

/// Where a filesystem keeps its label. There is none for an encrypted container.
pub fn label_window(ft: FsType) -> (r: Option<Window>)
    ensures
        r == label_place(ft),
{
    match ft {
        FsType::Ext4 => Some(Window { offset: 0x478, len: 16 }),
        FsType::Btrfs => Some(Window { offset: 0x1012b, len: 256 }),
        FsType::Bcachefs => Some(Window { offset: 0x1048, len: 32 }),
        FsType::Xfs => Some(Window { offset: 108, len: 12 }),
        FsType::F2fs => Some(Window { offset: 0x5a0, len: 512 }),
        FsType::Luks => None,
    }
}

/// The bytes before the first zero byte.
pub open spec fn before_zero(b: Seq<u8>) -> Seq<u8>
    decreases b.len(),
{
    if b.len() == 0 || b[0] == 0 {
        Seq::empty()
    } else {
        seq![b[0]] + before_zero(b.skip(1))
    }
}

/// A text without the white space around it, if anything is left.
pub open spec fn tidy(t: Option<Seq<char>>) -> Option<Seq<char>> {
    match t {
        Some(s) => if trimmed(s).len() == 0 {
            None
        } else {
            Some(trimmed(s))
        },
        None => None,
    }
}

/// The label that a buffer holds.
pub open spec fn bytes_label(b: Seq<u8>) -> Option<Seq<char>> {
    tidy(utf8_text(before_zero(b)))
}

proof fn lemma_before_zero(b: Seq<u8>, n: int)
    requires
        0 <= n <= b.len(),
        forall|i: int| 0 <= i < n ==> b[i] != 0,
        n < b.len() ==> b[n] == 0,
    ensures
        before_zero(b) == b.take(n),
    decreases n,
{
    if n > 0 {
        lemma_before_zero(b.skip(1), n - 1);
        assert(seq![b[0]] + b.skip(1).take(n - 1) =~= b.take(n));
    } else {
        assert(b.take(0) =~= Seq::<u8>::empty());
    }
}

fn tidy_label(s: String) -> (r: Option<String>)
    ensures
        opt_text(r) == tidy(Some(s@)),
{
    let t = trim_text(s.as_str());
    if t.as_str().unicode_len() == 0 {
        None
    } else {
        Some(t)
    }
}

proof fn lemma_empty_text()
    ensures
        tidy(utf8_text(Seq::empty())) is None,
{
    vstd::utf8::encode_utf8_decode_utf8(Seq::empty());
    assert(encode_utf8(Seq::<char>::empty()) =~= Seq::<u8>::empty());
}

/// Extract a NUL-terminated UTF-8 label from a fixed-size buffer.
pub fn label_from_bytes(buf: &[u8]) -> (r: Option<String>)
    ensures
        opt_text(r) == bytes_label(buf@),
{
    let mut end: usize = 0;
    while end < buf.len() && buf[end] != 0
        invariant
            end <= buf@.len(),
            forall|i: int| 0 <= i < end ==> buf@[i] != 0,
        decreases buf@.len() - end,
    {
        end = end + 1;
    }
    let name = slice_subrange(buf, 0, end);
    proof {
        lemma_before_zero(buf@, end as int);
        assert(name@ =~= buf@.take(end as int));
        if end == 0 {
            lemma_empty_text();
            assert(name@ =~= Seq::<u8>::empty());
        }
    }
    if end == 0 {
        return None;
    }
    match text_from_utf8(name) {
        Some(s) => tidy_label(s),
        None => None,
    }
}

/// The 16-bit numbers that pairs of bytes make, the low byte first, up to the
/// first zero. A last byte without a partner is left out.
pub open spec fn wide_units(b: Seq<u8>) -> Seq<u16>
    decreases b.len(),
{
    if b.len() < 2 || (b[0] == 0 && b[1] == 0) {
        Seq::empty()
    } else {
        seq![(b[0] + 256 * b[1]) as u16] + wide_units(b.skip(2))
    }
}

/// The label that a buffer in UTF-16 holds, or that it is none.
pub open spec fn wide_label(b: Seq<u8>) -> Result<Option<Seq<char>>, ErrorView> {
    let units = wide_units(b);
    if units.len() == 0 {
        Ok(None)
    } else {
        match utf16_text(units) {
            None => Err(ErrorView::Parse("invalid UTF-16 in F2FS label"@)),
            Some(s) => Ok(tidy(Some(s))),
        }
    }
}

fn read_wide_units(buf: &[u8]) -> (r: Vec<u16>)
    ensures
        r@ == wide_units(buf@),
{
    let mut units: Vec<u16> = Vec::new();
    let mut i: usize = 0;
    assert(buf@.skip(0) =~= buf@);
    assert(units@ + wide_units(buf@) =~= wide_units(buf@));
    while buf.len() - i >= 2 && !(buf[i] == 0 && buf[i + 1] == 0)
        invariant
            i <= buf@.len(),
            units@ + wide_units(buf@.skip(i as int)) == wide_units(buf@),
        decreases buf@.len() - i,
    {
        let ghost rest = buf@.skip(i as int);
        let ghost before = units@;
        let unit: u16 = buf[i] as u16 + 256 * (buf[i + 1] as u16);
        units.push(unit);
        proof {
            assert(rest[0] == buf@[i as int] && rest[1] == buf@[i + 1]);
            assert(rest.skip(2) =~= buf@.skip(i + 2));
            assert(before + (seq![unit] + wide_units(rest.skip(2))) =~= before.push(unit)
                + wide_units(rest.skip(2)));
        }
        i = i + 2;
    }
    proof {
        let rest = buf@.skip(i as int);
        if rest.len() >= 2 {
            assert(rest[0] == buf@[i as int] && rest[1] == buf@[i + 1]);
        }
        assert(units@ + Seq::<u16>::empty() =~= units@);
    }
    units
}

/// The failure of a read that did not succeed.
pub open spec fn read_failure(r: ReadOutcome) -> ErrorView
    recommends
        !(r is Bytes),
{
    match r {
        ReadOutcome::Unreadable(f) => io_error(f),
        ReadOutcome::Unreachable(f) => io_error(f),
        ReadOutcome::Bytes(_) => arbitrary(),
    }
}

/// The label of a filesystem, given what was read where it is kept. That of
/// bcachefs may have moved, so that not finding it is no failure.
pub open spec fn fs_label(ft: FsType, read: Result<ReadOutcome, IoFailure>) -> Result<
    Option<Seq<char>>,
    ErrorView,
> {
    match read {
        Err(f) => Err(io_error(f)),
        Ok(r) => match ft {
            FsType::Luks => Ok(None),
            FsType::F2fs => match r {
                ReadOutcome::Bytes(b) => wide_label(b@),
                _ => Err(read_failure(r)),
            },
            FsType::Bcachefs => match r {
                ReadOutcome::Bytes(b) => Ok(bytes_label(b@)),
                _ => Ok(None),
            },
            _ => match r {
                ReadOutcome::Bytes(b) => Ok(bytes_label(b@)),
                _ => Err(read_failure(r)),
            },
        },
    }
}

/// Read a filesystem label from the superblock, given what was read from the
/// place that `label_window` gives (nothing for LUKS), if the device could be
/// opened.
pub fn read_fs_label(fstype: FsType, read: &Result<ReadOutcome, IoFailure>) -> (r: Result<
    Option<String>,
    Error,
>)
    ensures
        match r {
            Ok(l) => fs_label(fstype, *read) == Ok::<Option<Seq<char>>, ErrorView>(opt_text(l)),
            Err(e) => fs_label(fstype, *read) == Err::<Option<Seq<char>>, ErrorView>(e@),
        },
{
    let read = match read {
        Ok(read) => read,
        Err(f) => {
            return Err(copy_io_error(f));
        },
    };
    if fstype == FsType::Luks {
        return Ok(None);
    }
    let bytes = match read {
        ReadOutcome::Bytes(bytes) => bytes,
        ReadOutcome::Unreadable(f) => {
            return if fstype == FsType::Bcachefs {
                Ok(None)
            } else {
                Err(copy_io_error(f))
            };
        },
        ReadOutcome::Unreachable(f) => {
            return if fstype == FsType::Bcachefs {
                Ok(None)
            } else {
                Err(copy_io_error(f))
            };
        },
    };
    if fstype != FsType::F2fs {
        return Ok(label_from_bytes(bytes.as_slice()));
    }
    let units = read_wide_units(bytes.as_slice());
    if units.len() == 0 {
        return Ok(None);
    }
    match text_from_utf16(units.as_slice()) {
        Some(s) => Ok(tidy_label(s)),
        None => Err(Error::Parse("invalid UTF-16 in F2FS label".to_owned())),
    }
}

// --- Multi-device info from superblock ---

/// Information about a device's membership in a multi-device filesystem.
#[derive(Debug, Clone, Copy, PartialEq, Eq)]
pub struct MultiDeviceInfo {
    /// Filesystem UUID (ties devices together).
    pub fs_uuid: [u8; 16],
    /// Total number of devices in the filesystem.
    pub nr_devices: u32,
    /// This device's index in the set (0 for btrfs).
    pub dev_idx: u32,
}

/// The model of a device's membership.
pub struct MemberView {
    pub fs_uuid: Seq<u8>,
    pub nr_devices: int,
    pub dev_idx: int,
}

impl View for MultiDeviceInfo {
    type V = MemberView;

    open spec fn view(&self) -> MemberView {
        MemberView {
            fs_uuid: self.fs_uuid@,
            nr_devices: self.nr_devices as int,
            dev_idx: self.dev_idx as int,
        }
    }
}

/// The view of an optional membership.
pub open spec fn opt_member(m: Option<MultiDeviceInfo>) -> Option<MemberView> {
    match m {
        Some(x) => Some(x@),
        None => None,
    }
}

/// Where btrfs keeps the UUID of the filesystem.
pub open spec fn uuid_place() -> Window {
    Window { offset: 0x10020, len: 16 }
}

/// Where btrfs keeps the number of its devices.
pub open spec fn count_place() -> Window {
    Window { offset: 0x10088, len: 8 }
}

/// The places that have to be read to tell the membership of a device with the
/// given filesystem.
pub fn member_windows(ft: FsType) -> (r: Vec<Window>)
    ensures
        r@ == (if ft == FsType::Btrfs {
            seq![uuid_place(), count_place()]
        } else {
            Seq::empty()
        }),
{
    let r: Vec<Window> = if ft == FsType::Btrfs {
        vec![Window { offset: 0x10020, len: 16 }, Window { offset: 0x10088, len: 8 }]
    } else {
        Vec::new()
    };
    assert(ft == FsType::Btrfs ==> r@ =~= seq![uuid_place(), count_place()]);
    assert(ft != FsType::Btrfs ==> r@ =~= Seq::empty());
    r
}

/// The number that bytes make, the low one first.
pub open spec fn little_endian(b: Seq<u8>) -> int
    decreases b.len(),
{
    if b.len() == 0 {
        0
    } else {
        b[0] + 256 * little_endian(b.skip(1))
    }
}

/// The membership that a btrfs superblock tells. A filesystem of one device has
/// none.
pub open spec fn btrfs_member(uuid: Seq<u8>, count: Seq<u8>) -> Option<MemberView> {
    let n = little_endian(count);
    if n <= 1 {
        None
    } else {
        Some(MemberView { fs_uuid: uuid, nr_devices: n % 0x1_0000_0000, dev_idx: 0 })
    }
}

/// The membership of a device, given what was read.
pub open spec fn membership(ft: FsType, reads: Result<Vec<ReadOutcome>, IoFailure>) -> Result<
    Option<MemberView>,
    ErrorView,
> {
    if ft != FsType::Btrfs {
        Ok(None)
    } else {
        match reads {
            Err(f) => Err(io_error(f)),
            Ok(v) => match v@[0] {
                ReadOutcome::Bytes(uuid) => match v@[1] {
                    ReadOutcome::Bytes(count) => Ok(btrfs_member(uuid@, count@)),
                    r => Err(read_failure(r)),
                },
                r => Err(read_failure(r)),
            },
        }
    }
}

/// Whether outcomes have the sizes that the windows ask for.
pub open spec fn fit_windows(reads: Seq<ReadOutcome>, windows: Seq<Window>) -> bool {
    &&& reads.len() == windows.len()
    &&& forall|i: int|
        0 <= i < reads.len() ==> (#[trigger] reads[i] matches ReadOutcome::Bytes(b) ==> b@.len()
            == windows[i].len)
}

fn read_count(b: &Vec<u8>) -> (r: u64)
    requires
        b@.len() == 8,
    ensures
        r == little_endian(b@),
{
    let mut n: u64 = 0;
    let mut i: usize = 8;
    let ghost mut limit: int = 1;
    assert(b@.skip(8).len() == 0);
    while i > 0
        invariant
            i <= 8,
            b@.len() == 8,
            n == little_endian(b@.skip(i as int)),
            0 <= n < limit,
            limit == (if i == 8 {
                1int
            } else if i == 7 {
                0x100
            } else if i == 6 {
                0x1_0000
            } else if i == 5 {
                0x100_0000
            } else if i == 4 {
                0x1_0000_0000
            } else if i == 3 {
                0x100_0000_0000
            } else if i == 2 {
                0x1_0000_0000_0000
            } else if i == 1 {
                0x100_0000_0000_0000
            } else {
                0x1_0000_0000_0000_0000
            }),
        decreases i,
    {
        i = i - 1;
        assert(b@.skip(i as int).skip(1) =~= b@.skip(i + 1));
        assert(b@.skip(i as int)[0] == b@[i as int]);
        n = b[i] as u64 + 256 * n;
        proof {
            limit = limit * 256;
        }
    }
    assert(b@.skip(0) =~= b@);
    n
}

fn uuid_of(b: &Vec<u8>) -> (r: [u8; 16])
    requires
        b@.len() == 16,
    ensures
        r@ == b@,
{
    let r: [u8; 16] = [
        b[0],
        b[1],
        b[2],
        b[3],
        b[4],
        b[5],
        b[6],
        b[7],
        b[8],
        b[9],
        b[10],
        b[11],
        b[12],
        b[13],
        b[14],
        b[15],
    ];
    assert(r@ =~= b@);
    r
}

fn read_error(r: &ReadOutcome) -> (e: Error)
    requires
        !(r is Bytes),
    ensures
        e@ == read_failure(*r),
{
    match r {
        ReadOutcome::Unreadable(f) => copy_io_error(f),
        ReadOutcome::Unreachable(f) => copy_io_error(f),
        ReadOutcome::Bytes(_) => Error::Parse(String::new()),
    }
}

/// Read multi-device membership info from a superblock, given what was read from
/// the places of `member_windows`, if the device could be opened.
///
/// Returns `None` for single-device filesystems or filesystem types
/// that don't support multi-device (ext4, XFS, F2FS, LUKS), and for bcachefs,
/// which the kernel assembles itself.
pub fn read_multi_device_info(
    fstype: FsType,
    reads: &Result<Vec<ReadOutcome>, IoFailure>,
) -> (r: Result<Option<MultiDeviceInfo>, Error>)
    requires
        fstype == FsType::Btrfs && reads is Ok ==> fit_windows(
            reads->Ok_0@,
            seq![uuid_place(), count_place()],
        ),
    ensures
        match r {
            Ok(m) => membership(fstype, *reads) == Ok::<Option<MemberView>, ErrorView>(
                opt_member(m),
            ),
            Err(e) => membership(fstype, *reads) == Err::<Option<MemberView>, ErrorView>(e@),
        },
{
    if fstype != FsType::Btrfs {
        return Ok(None);
    }
    let v = match reads {
        Ok(v) => v,
        Err(f) => {
            return Err(copy_io_error(f));
        },
    };
    assert(v@.len() == 2);
    let uuid = match &v[0] {
        ReadOutcome::Bytes(b) => b,
        _ => {
            return Err(read_error(&v[0]));
        },
    };
    let count = match &v[1] {
        ReadOutcome::Bytes(b) => b,
        _ => {
            return Err(read_error(&v[1]));
        },
    };
    let n: u64 = read_count(count);
    if n <= 1 {
        return Ok(None);
    }
    let nr_devices: u32 = (n % 0x1_0000_0000) as u32;
    Ok(Some(MultiDeviceInfo { fs_uuid: uuid_of(uuid), nr_devices, dev_idx: 0 }))
}

// --- Multi-device grouping ---

/// A group of devices that belong to the same multi-device filesystem.
#[derive(Debug)]
pub struct DeviceGroup {
    /// Filesystem type shared by all members.
    pub fstype: FsType,
    /// Filesystem UUID that ties the devices together.
    pub fs_uuid: [u8; 16],
    /// Member devices: (path, dev_idx).
    pub devices: Vec<(BootPath, u32)>,
    /// Expected total number of devices.
    pub nr_expected: u32,
}

/// The model of a member device of a group.
pub struct DeviceView {
    pub path: Seq<u8>,
    pub idx: int,
}

/// The model of a group.
pub struct GroupView {
    pub fstype: FsType,
    pub fs_uuid: Seq<u8>,
    pub devices: Seq<DeviceView>,
    pub nr_expected: int,
}

/// The model of a member device of a group.
pub open spec fn device_view(d: (BootPath, u32)) -> DeviceView {
    DeviceView { path: d.0@, idx: d.1 as int }
}

/// The models of the member devices of a group.
pub open spec fn device_views(s: Seq<(BootPath, u32)>) -> Seq<DeviceView> {
    s.map_values(|d: (BootPath, u32)| device_view(d))
}

impl View for DeviceGroup {
    type V = GroupView;

    open spec fn view(&self) -> GroupView {
        GroupView {
            fstype: self.fstype,
            fs_uuid: self.fs_uuid@,
            devices: device_views(self.devices@),
            nr_expected: self.nr_expected as int,
        }
    }
}

/// Whether all expected devices of a group are there. The number of devices is
/// counted with 32 bits.
pub open spec fn is_complete_group(g: GroupView) -> bool {
    g.devices.len() % 0x1_0000_0000 >= g.nr_expected
}

impl DeviceGroup {
    /// True if all expected devices have been found.
    pub fn is_complete(&self) -> (r: bool)
        ensures
            r == is_complete_group(self@),
    {
        (self.devices.len() as u64 % 0x1_0000_0000) as u32 >= self.nr_expected
    }
}

/// A device with its detected filesystem type and optional multi-device info.
#[derive(Debug)]
pub struct ProbeResult {
    pub path: BootPath,
    pub fstype: FsType,
    pub multi: Option<MultiDeviceInfo>,
}

/// The model of a probed device.
pub struct ProbeView {
    pub path: Seq<u8>,
    pub fstype: FsType,
    pub multi: Option<MemberView>,
}

impl View for ProbeResult {
    type V = ProbeView;

    open spec fn view(&self) -> ProbeView {
        ProbeView { path: self.path@, fstype: self.fstype, multi: opt_member(self.multi) }
    }
}

/// Whether a group is of the given filesystem.
pub open spec fn is_of(g: GroupView, fs_uuid: Seq<u8>, fstype: FsType) -> bool {
    g.fs_uuid == fs_uuid && g.fstype == fstype
}

/// The first group, from `from` on, of the given filesystem.
pub open spec fn group_of(
    groups: Seq<GroupView>,
    fs_uuid: Seq<u8>,
    fstype: FsType,
    from: int,
) -> Option<int>
    decreases groups.len() - from,
{
    if from < 0 || from >= groups.len() {
        None
    } else if is_of(groups[from], fs_uuid, fstype) {
        Some(from)
    } else {
        group_of(groups, fs_uuid, fstype, from + 1)
    }
}

/// A group with one more device. It expects as many devices as any of its members
/// says.
pub open spec fn joined_by(g: GroupView, path: Seq<u8>, m: MemberView) -> GroupView {
    GroupView {
        devices: g.devices.push(DeviceView { path, idx: m.dev_idx }),
        nr_expected: if m.nr_devices > g.nr_expected {
            m.nr_devices
        } else {
            g.nr_expected
        },
        ..g
    }
}

/// The groups with one more device: in the group of its filesystem, or in a new
/// one.
pub open spec fn groups_with(groups: Seq<GroupView>, p: ProbeView) -> Seq<GroupView> {
    match p.multi {
        None => groups,
        Some(m) => match group_of(groups, m.fs_uuid, p.fstype, 0) {
            Some(i) => groups.update(i, joined_by(groups[i], p.path, m)),
            None => groups.push(
                GroupView {
                    fstype: p.fstype,
                    fs_uuid: m.fs_uuid,
                    devices: seq![DeviceView { path: p.path, idx: m.dev_idx }],
                    nr_expected: m.nr_devices,
                },
            ),
        },
    }
}

/// The groups of the probed devices, in the order in which they come up.
pub open spec fn raw_groups(probes: Seq<ProbeView>) -> Seq<GroupView>
    decreases probes.len(),
{
    if probes.len() == 0 {
        Seq::empty()
    } else {
        groups_with(raw_groups(probes.drop_last()), probes.last())
    }
}

/// Devices are ordered by their index.
pub open spec fn index_order() -> spec_fn(DeviceView, DeviceView) -> bool {
    |a: DeviceView, b: DeviceView| a.idx < b.idx
}

/// A group with its devices in order.
pub open spec fn ordered_group(g: GroupView) -> GroupView {
    GroupView { devices: sorted(g.devices, index_order()), ..g }
}

/// Groups are ordered by the path of their first device.
pub open spec fn first_path_order() -> spec_fn(GroupView, GroupView) -> bool {
    |a: GroupView, b: GroupView|
        if a.devices.len() == 0 {
            b.devices.len() > 0
        } else {
            b.devices.len() > 0 && path_before(a.devices[0].path, b.devices[0].path)
        }
}

/// The groups of the probed devices, in order, each with its devices in order.
pub open spec fn device_groups(probes: Seq<ProbeView>) -> Seq<GroupView> {
    sorted(raw_groups(probes).map_values(|g: GroupView| ordered_group(g)), first_path_order())
}

/// Whether a device belongs to no group.
pub open spec fn is_single() -> spec_fn(ProbeView) -> bool {
    |p: ProbeView| p.multi is None
}

struct Member {
    path: BootPath,
    idx: u32,
}

impl View for Member {
    type V = DeviceView;

    closed spec fn view(&self) -> DeviceView {
        DeviceView { path: self.path@, idx: self.idx as int }
    }
}

impl Ranked for Member {
    closed spec fn order() -> spec_fn(DeviceView, DeviceView) -> bool {
        index_order()
    }

    fn goes_before(&self, other: &Self) -> (r: bool) {
        self.idx < other.idx
    }
}

impl Ranked for DeviceGroup {
    open spec fn order() -> spec_fn(GroupView, GroupView) -> bool {
        first_path_order()
    }

    fn goes_before(&self, other: &Self) -> (r: bool) {
        assert(self@.devices.len() == self.devices@.len());
        assert(other@.devices.len() == other.devices@.len());
        if other.devices.len() == 0 {
            return false;
        }
        assert(other@.devices[0] == device_view(other.devices@[0]));
        if self.devices.len() == 0 {
            return true;
        }
        assert(self@.devices[0] == device_view(self.devices@[0]));
        self.devices[0].0.is_before(&other.devices[0].0)
    }
}

/// Sorts the devices of a group by their index.
pub(crate) fn sort_devices(devices: &Vec<(BootPath, u32)>) -> (r: Vec<(BootPath, u32)>)
    ensures
        device_views(r@) == sorted(device_views(devices@), index_order()),
{
    let mut members: Vec<Member> = Vec::new();
    let mut i: usize = 0;
    while i < devices.len()
        invariant
            i <= devices@.len(),
            members@.len() == i,
            forall|k: int| 0 <= k < i ==> (#[trigger] members@[k])@ == device_view(devices@[k]),
        decreases devices@.len() - i,
    {
        members.push(Member { path: devices[i].0.clone(), idx: devices[i].1 });
        i = i + 1;
    }
    assert(views(members@) =~= device_views(devices@));
    let members = stable_sort(members);
    let mut out: Vec<(BootPath, u32)> = Vec::new();
    let mut i: usize = 0;
    while i < members.len()
        invariant
            i <= members@.len(),
            out@.len() == i,
            forall|k: int| 0 <= k < i ==> device_view(#[trigger] out@[k]) == members@[k]@,
        decreases members@.len() - i,
    {
        out.push((members[i].path.clone(), members[i].idx));
        i = i + 1;
    }
    assert(device_views(out@) =~= views(members@));
    out
}

pub(crate) fn same_uuid(a: &[u8; 16], b: &[u8; 16]) -> (r: bool)
    ensures
        r == (a@ == b@),
{
    let mut i: usize = 0;
    while i < 16
        invariant
            i <= 16,
            forall|k: int| 0 <= k < i ==> a@[k] == b@[k],
        decreases 16 - i,
    {
        if a[i] != b[i] {
            return false;
        }
        i = i + 1;
    }
    assert(a@ =~= b@);
    true
}

/// Finds the first group of the given filesystem.
pub(crate) fn find_group(groups: &Vec<DeviceGroup>, fs_uuid: &[u8; 16], fstype: FsType) -> (r:
    Option<usize>)
    ensures
        match r {
            Some(i) => i < groups@.len() && group_of(views(groups@), fs_uuid@, fstype, 0) == Some(
                i as int,
            ),
            None => group_of(views(groups@), fs_uuid@, fstype, 0) is None,
        },
{
    let ghost gv = views(groups@);
    let mut i: usize = 0;
    while i < groups.len()
        invariant
            i <= groups@.len(),
            gv == views(groups@),
            group_of(gv, fs_uuid@, fstype, 0) == group_of(gv, fs_uuid@, fstype, i as int),
        decreases groups@.len() - i,
    {
        assert(gv[i as int] == groups@[i as int]@);
        if same_uuid(&groups[i].fs_uuid, fs_uuid) && groups[i].fstype == fstype {
            return Some(i);
        }
        i = i + 1;
    }
    None
}

/// Adds a device to its group.
fn add_to_groups(groups: &mut Vec<DeviceGroup>, path: BootPath, fstype: FsType, m: MultiDeviceInfo)
    ensures
        views(final(groups)@) == groups_with(
            views(old(groups)@),
            ProbeView { path: path@, fstype, multi: Some(m@) },
        ),
{
    let ghost before = groups@;
    let ghost p = ProbeView { path: path@, fstype, multi: Some(m@) };
    match find_group(groups, &m.fs_uuid, fstype) {
        Some(i) => {
            let ghost g = groups@[i as int];
            assert(views(before)[i as int] == g@);
            groups[i].devices.push((path, m.dev_idx));
            if m.nr_devices > groups[i].nr_expected {
                groups[i].nr_expected = m.nr_devices;
            }
            proof {
                let h = groups@[i as int];
                assert(device_views(h.devices@) =~= device_views(g.devices@).push(
                    DeviceView { path: p.path, idx: m@.dev_idx },
                ));
                assert(h@ == joined_by(g@, p.path, m@));
                assert(views(groups@) =~= groups_with(views(before), p));
            }
        },
        None => {
            let g = DeviceGroup {
                fstype,
                fs_uuid: m.fs_uuid,
                devices: vec![(path, m.dev_idx)],
                nr_expected: m.nr_devices,
            };
            assert(g@.devices =~= seq![DeviceView { path: p.path, idx: m@.dev_idx }]);
            groups.push(g);
            assert(views(groups@) =~= groups_with(views(before), p));
        },
    }
}

/// Group probed devices into multi-device groups and single devices.
///
/// Returns `(groups, singles)` where `groups` are multi-device filesystem
/// groups and `singles` are devices that don't belong to any group.
pub fn group_multi_device(probed: Vec<ProbeResult>) -> (r: (Vec<DeviceGroup>, Vec<ProbeResult>))
    ensures
        views(r.0@) == device_groups(views(probed@)),
        views(r.1@) == views(probed@).filter(is_single()),
{
    let ghost s = views(probed@);
    let mut rest = probed;
    let mut groups: Vec<DeviceGroup> = Vec::new();
    let mut singles: Vec<ProbeResult> = Vec::new();
    let ghost mut done: int = 0;
    assert(s.skip(0) =~= s);
    assert(s.take(0) =~= Seq::<ProbeView>::empty());
    assert(views(groups@) =~= Seq::<GroupView>::empty());
    assert(views(singles@) =~= s.take(0).filter(is_single())) by {
        reveal(Seq::filter);
    }
    while rest.len() > 0
        invariant
            0 <= done <= s.len(),
            views(rest@) == s.skip(done),
            views(groups@) == raw_groups(s.take(done)),
            views(singles@) == s.take(done).filter(is_single()),
        decreases rest@.len(),
    {
        let ghost was = rest@;
        let ghost had = singles@;
        let p = rest.remove(0);
        proof {
            assert(views(was).len() == was.len());
            assert(views(was)[0] == s.skip(done)[0]);
            assert(s.skip(done)[0] == s[done]);
            assert forall|i: int| 0 <= i < rest@.len() implies views(rest@)[i] == s.skip(done
                + 1)[i] by {
                assert(rest@[i] == was[i + 1]);
                assert(views(was)[i + 1] == s.skip(done)[i + 1]);
            }
            assert(views(rest@) =~= s.skip(done + 1));
            assert(s.take(done + 1).drop_last() =~= s.take(done));
            assert(s.take(done + 1).last() == p@);
            reveal(Seq::filter);
            done = done + 1;
        }
        match p.multi {
            Some(m) => {
                add_to_groups(&mut groups, p.path, p.fstype, m);
            },
            None => {
                singles.push(p);
                assert(views(singles@) =~= views(had).push(p@));
            },
        }
    }
    assert(views(rest@).len() == 0);
    assert(s.take(done) =~= s);
    let mut ordered: Vec<DeviceGroup> = Vec::new();
    let mut i: usize = 0;
    while i < groups.len()
        invariant
            i <= groups@.len(),
            ordered@.len() == i,
            forall|k: int|
                0 <= k < i ==> (#[trigger] ordered@[k])@ == ordered_group(groups@[k]@),
        decreases groups@.len() - i,
    {
        let g = &groups[i];
        ordered.push(
            DeviceGroup {
                fstype: g.fstype,
                fs_uuid: g.fs_uuid,
                devices: sort_devices(&g.devices),
                nr_expected: g.nr_expected,
            },
        );
        i = i + 1;
    }
    assert(views(ordered@) =~= views(groups@).map_values(|g: GroupView| ordered_group(g)));
    (stable_sort(ordered), singles)
}

// --- Laws of the groups ---

proof fn lemma_group_of(groups: Seq<GroupView>, fs_uuid: Seq<u8>, fstype: FsType, from: int)
    requires
        0 <= from,
    ensures
        group_of(groups, fs_uuid, fstype, from) matches Some(i) ==> from <= i < groups.len()
            && is_of(groups[i], fs_uuid, fstype),
        group_of(groups, fs_uuid, fstype, from) is None ==> forall|i: int|
            from <= i < groups.len() ==> !is_of(#[trigger] groups[i], fs_uuid, fstype),
    decreases groups.len() - from,
{
    if from < groups.len() && !is_of(groups[from], fs_uuid, fstype) {
        lemma_group_of(groups, fs_uuid, fstype, from + 1);
    }
}

/// The group that is found for a filesystem is one of it.
pub proof fn group_of_finds(groups: Seq<GroupView>, fs_uuid: Seq<u8>, fstype: FsType)
    ensures
        group_of(groups, fs_uuid, fstype, 0) matches Some(i) ==> 0 <= i < groups.len() && is_of(
            groups[i],
            fs_uuid,
            fstype,
        ),
        group_of(groups, fs_uuid, fstype, 0) is None ==> forall|i: int|
            0 <= i < groups.len() ==> !is_of(#[trigger] groups[i], fs_uuid, fstype),
{
    lemma_group_of(groups, fs_uuid, fstype, 0);
}

/// Whether two groups are of different filesystems.
pub open spec fn are_apart() -> spec_fn(GroupView, GroupView) -> bool {
    |a: GroupView, b: GroupView| !is_of(a, b.fs_uuid, b.fstype)
}

/// Whether one of the groups is of the given filesystem and has the given device.
pub open spec fn is_member(
    groups: Seq<GroupView>,
    fs_uuid: Seq<u8>,
    fstype: FsType,
    d: DeviceView,
) -> bool {
    exists|k: int|
        0 <= k < groups.len() && is_of(#[trigger] groups[k], fs_uuid, fstype)
            && groups[k].devices.contains(d)
}

proof fn lemma_groups_with(groups: Seq<GroupView>, p: ProbeView)
    requires
        pairwise(groups, are_apart()),
    ensures
        pairwise(groups_with(groups, p), are_apart()),
        p.multi matches Some(m) ==> is_member(
            groups_with(groups, p),
            m.fs_uuid,
            p.fstype,
            DeviceView { path: p.path, idx: m.dev_idx },
        ),
        forall|u: Seq<u8>, t: FsType, d: DeviceView| #[trigger]
            is_member(groups, u, t, d) ==> is_member(groups_with(groups, p), u, t, d),
{
    let next = groups_with(groups, p);
    if let Some(m) = p.multi {
        let d = DeviceView { path: p.path, idx: m.dev_idx };
        lemma_group_of(groups, m.fs_uuid, p.fstype, 0);
        match group_of(groups, m.fs_uuid, p.fstype, 0) {
            Some(i) => {
                let g = groups[i];
                assert(next[i].devices[g.devices.len() as int] == d);
                assert(next[i].devices.contains(d));
                assert forall|u: Seq<u8>, t: FsType, e: DeviceView| #[trigger]
                    is_member(groups, u, t, e) implies is_member(next, u, t, e) by {
                    let k = choose|k: int|
                        0 <= k < groups.len() && is_of(#[trigger] groups[k], u, t)
                            && groups[k].devices.contains(e);
                    let j = choose|j: int|
                        0 <= j < groups[k].devices.len() && groups[k].devices[j] == e;
                    assert(next[k].devices[j] == e);
                    assert(is_of(next[k], u, t) && next[k].devices.contains(e));
                }
                assert forall|a: int, b: int|
                    0 <= a < next.len() && 0 <= b < next.len() && a != b implies are_apart()(
                    #[trigger] next[a],
                    #[trigger] next[b],
                ) by {
                    assert(are_apart()(groups[a], groups[b]));
                }
            },
            None => {
                let n = groups.len() as int;
                assert(next[n].devices[0] == d);
                assert(is_of(next[n], m.fs_uuid, p.fstype) && next[n].devices.contains(d));
                assert forall|u: Seq<u8>, t: FsType, e: DeviceView| #[trigger]
                    is_member(groups, u, t, e) implies is_member(next, u, t, e) by {
                    let k = choose|k: int|
                        0 <= k < groups.len() && is_of(#[trigger] groups[k], u, t)
                            && groups[k].devices.contains(e);
                    assert(next[k] == groups[k]);
                }
                assert forall|a: int, b: int|
                    0 <= a < next.len() && 0 <= b < next.len() && a != b implies are_apart()(
                    #[trigger] next[a],
                    #[trigger] next[b],
                ) by {
                    if a < n && b < n {
                        assert(are_apart()(groups[a], groups[b]));
                    } else if a < n {
                        assert(!is_of(groups[a], m.fs_uuid, p.fstype));
                    } else {
                        assert(!is_of(groups[b], m.fs_uuid, p.fstype));
                    }
                }
            },
        }
    }
}

proof fn lemma_raw_groups(probes: Seq<ProbeView>)
    ensures
        pairwise(raw_groups(probes), are_apart()),
        forall|i: int|
            0 <= i < probes.len() ==> (#[trigger] probes[i].multi matches Some(m) ==> is_member(
                raw_groups(probes),
                m.fs_uuid,
                probes[i].fstype,
                DeviceView { path: probes[i].path, idx: m.dev_idx },
            )),
    decreases probes.len(),
{
    if probes.len() > 0 {
        let init = probes.drop_last();
        lemma_raw_groups(init);
        lemma_groups_with(raw_groups(init), probes.last());
        assert forall|i: int| 0 <= i < probes.len() implies (#[trigger] probes[i].multi matches Some(
            m,
        ) ==> is_member(
            raw_groups(probes),
            m.fs_uuid,
            probes[i].fstype,
            DeviceView { path: probes[i].path, idx: m.dev_idx },
        )) by {
            if i < init.len() {
                assert(init[i].multi == probes[i].multi);
                if let Some(m) = probes[i].multi {
                    assert(is_member(
                        raw_groups(init),
                        m.fs_uuid,
                        probes[i].fstype,
                        DeviceView { path: probes[i].path, idx: m.dev_idx },
                    ));
                }
            }
        }
    }
}

/// Every device that belongs to a filesystem of several is in the group of that
/// filesystem, and no two groups are of the same filesystem.
pub proof fn members_are_grouped(probes: Seq<ProbeView>)
    ensures
        pairwise(device_groups(probes), are_apart()),
        forall|i: int|
            0 <= i < probes.len() ==> (#[trigger] probes[i].multi matches Some(m) ==> is_member(
                device_groups(probes),
                m.fs_uuid,
                probes[i].fstype,
                DeviceView { path: probes[i].path, idx: m.dev_idx },
            )),
{
    let raw = raw_groups(probes);
    let put = raw.map_values(|g: GroupView| ordered_group(g));
    let all = device_groups(probes);
    lemma_raw_groups(probes);
    assert forall|a: int, b: int| 0 <= a < put.len() && 0 <= b < put.len() && a != b implies
        are_apart()(#[trigger] put[a], #[trigger] put[b]) by {
        assert(are_apart()(raw[a], raw[b]));
    }
    sorted_keeps_pairwise(put, first_path_order(), are_apart());
    assert forall|i: int| 0 <= i < probes.len() implies (#[trigger] probes[i].multi matches Some(m)
        ==> is_member(
        all,
        m.fs_uuid,
        probes[i].fstype,
        DeviceView { path: probes[i].path, idx: m.dev_idx },
    )) by {
        if let Some(m) = probes[i].multi {
            let d = DeviceView { path: probes[i].path, idx: m.dev_idx };
            let t = probes[i].fstype;
            assert(is_member(raw, m.fs_uuid, t, d));
            let k = choose|k: int|
                0 <= k < raw.len() && is_of(#[trigger] raw[k], m.fs_uuid, t)
                    && raw[k].devices.contains(d);
            sorted_keeps_elements(raw[k].devices, index_order(), d);
            assert(put[k] == ordered_group(raw[k]));
            assert(put.contains(put[k]));
            sorted_keeps_elements(put, first_path_order(), put[k]);
            let j = choose|j: int| 0 <= j < all.len() && all[j] == put[k];
            assert(is_of(all[j], m.fs_uuid, t) && all[j].devices.contains(d));
        }
    }
}

/// Every group has a device.
pub open spec fn has_devices() -> spec_fn(GroupView) -> bool {
    |g: GroupView| g.devices.len() > 0
}

proof fn lemma_raw_groups_have_devices(probes: Seq<ProbeView>)
    ensures
        forall|i: int|
            0 <= i < raw_groups(probes).len() ==> has_devices()(#[trigger] raw_groups(probes)[i]),
    decreases probes.len(),
{
    if probes.len() > 0 {
        let init = raw_groups(probes.drop_last());
        let all = raw_groups(probes);
        lemma_raw_groups_have_devices(probes.drop_last());
        if let Some(m) = probes.last().multi {
            lemma_group_of(init, m.fs_uuid, probes.last().fstype, 0);
        }
        assert forall|i: int| 0 <= i < all.len() implies has_devices()(#[trigger] all[i]) by {
            if i < init.len() {
                assert(has_devices()(init[i]));
            }
        }
    }
}

/// No group is without devices.
pub proof fn groups_have_devices(probes: Seq<ProbeView>)
    ensures
        forall|i: int|
            0 <= i < device_groups(probes).len() ==> has_devices()(
                #[trigger] device_groups(probes)[i],
            ),
{
    let raw = raw_groups(probes);
    let put = raw.map_values(|g: GroupView| ordered_group(g));
    lemma_raw_groups_have_devices(probes);
    assert forall|i: int| 0 <= i < put.len() implies has_devices()(#[trigger] put[i]) by {
        assert(has_devices()(raw[i]));
        let d = raw[i].devices;
        sorted_keeps_elements(d, index_order(), d[0]);
        assert(d.contains(d[0]));
    }
    sorted_keeps_property(put, first_path_order(), has_devices());
}

/// A group is complete exactly if at least as many devices of it were found as it
/// expects.
pub proof fn complete_groups_have_all_devices(g: GroupView)
    requires
        g.devices.len() < 0x1_0000_0000,
    ensures
        is_complete_group(g) <==> g.devices.len() >= g.nr_expected,
{
}

/// Whether a probed device belongs to the given filesystem.
pub open spec fn belongs_to(fs_uuid: Seq<u8>, fstype: FsType) -> spec_fn(ProbeView) -> bool {
    |p: ProbeView| p.multi matches Some(m) && m.fs_uuid == fs_uuid && p.fstype == fstype
}

/// A probed device as a member of its group.
pub open spec fn as_member() -> spec_fn(ProbeView) -> DeviceView {
    |p: ProbeView| DeviceView { path: p.path, idx: p.multi->0.dev_idx }
}

proof fn lemma_none_belongs(probes: Seq<ProbeView>, fs_uuid: Seq<u8>, fstype: FsType)
    requires
        forall|i: int|
            0 <= i < raw_groups(probes).len() ==> !is_of(
                #[trigger] raw_groups(probes)[i],
                fs_uuid,
                fstype,
            ),
    ensures
        probes.filter(belongs_to(fs_uuid, fstype)).len() == 0,
{
    broadcast use vstd::seq_lib::group_filter_ensures;

    let p = belongs_to(fs_uuid, fstype);
    let f = probes.filter(p);
    lemma_raw_groups(probes);
    if f.len() > 0 {
        probes.lemma_filter_contains_rev(p, f[0]);
        assert(p(f[0]));
        let i = choose|i: int| 0 <= i < probes.len() && probes[i] == f[0];
        assert(probes[i].multi is Some);
        let raw = raw_groups(probes);
        let d = DeviceView { path: probes[i].path, idx: probes[i].multi->0.dev_idx };
        assert(is_member(raw, fs_uuid, fstype, d));
        let k = choose|k: int|
            0 <= k < raw.len() && is_of(#[trigger] raw[k], fs_uuid, fstype)
                && raw[k].devices.contains(d);
        assert(!is_of(raw[k], fs_uuid, fstype));
    }
}

/// Whether a number is the largest that the given members tell.
pub open spec fn is_largest_count(n: int, members: Seq<ProbeView>) -> bool {
    &&& forall|i: int|
        0 <= i < members.len() ==> (#[trigger] members[i]).multi->0.nr_devices <= n
    &&& exists|i: int|
        0 <= i < members.len() && (#[trigger] members[i]).multi->0.nr_devices == n
}

proof fn lemma_raw_group_members(probes: Seq<ProbeView>, k: int)
    requires
        0 <= k < raw_groups(probes).len(),
    ensures
        ({
            let g = raw_groups(probes)[k];
            let members = probes.filter(belongs_to(g.fs_uuid, g.fstype));
            &&& g.devices == members.map_values(as_member())
            &&& is_largest_count(g.nr_expected, members)
        }),
    decreases probes.len(),
{
    reveal(Seq::filter);
    let init = probes.drop_last();
    let p = probes.last();
    let before = raw_groups(init);
    let all = raw_groups(probes);
    lemma_raw_groups(init);
    match p.multi {
        None => {
            lemma_raw_group_members(init, k);
        },
        Some(m) => {
            lemma_group_of(before, m.fs_uuid, p.fstype, 0);
            match group_of(before, m.fs_uuid, p.fstype, 0) {
                Some(i) => {
                    lemma_raw_group_members(init, k);
                    let g = before[k];
                    let old_members = init.filter(belongs_to(g.fs_uuid, g.fstype));
                    if k == i {
                        let members = old_members.push(p);
                        assert(probes.filter(belongs_to(g.fs_uuid, g.fstype)) == members);
                        assert(all[k].devices =~= members.map_values(as_member()));
                        let w = choose|w: int|
                            0 <= w < old_members.len() && (
                            #[trigger] old_members[w]).multi->0.nr_devices == g.nr_expected;
                        assert(members[w] == old_members[w]);
                        assert(members[old_members.len() as int] == p);
                        assert forall|j: int| 0 <= j < members.len() implies (
                        #[trigger] members[j]).multi->0.nr_devices <= all[k].nr_expected by {
                            if j < old_members.len() {
                                assert(members[j] == old_members[j]);
                            }
                        }
                        assert(is_largest_count(all[k].nr_expected, members));
                    } else {
                        assert(are_apart()(before[k], before[i]));
                        assert(!belongs_to(g.fs_uuid, g.fstype)(p));
                    }
                },
                None => {
                    if k < before.len() {
                        lemma_raw_group_members(init, k);
                        assert(!is_of(before[k], m.fs_uuid, p.fstype));
                    } else {
                        lemma_none_belongs(init, m.fs_uuid, p.fstype);
                        let members = probes.filter(belongs_to(m.fs_uuid, p.fstype));
                        assert(members =~= seq![p]);
                        assert(members[0] == p);
                        assert(all[k].devices =~= members.map_values(as_member()));
                    }
                },
            }
        },
    }
}

/// A group has as many devices as belong to its filesystem, those and no others, in
/// the order of their indices, and it expects the largest number that one of them
/// tells.
pub proof fn groups_hold_their_members(probes: Seq<ProbeView>, k: int, d: DeviceView)
    requires
        0 <= k < device_groups(probes).len(),
    ensures
        ({
            let g = device_groups(probes)[k];
            let members = probes.filter(belongs_to(g.fs_uuid, g.fstype));
            &&& g.devices.len() == members.len()
            &&& g.devices.contains(d) <==> members.map_values(as_member()).contains(d)
            &&& is_largest_count(g.nr_expected, members)
            &&& forall|a: int, b: int|
                #![trigger g.devices[a], g.devices[b]]
                0 <= a < b < g.devices.len() ==> g.devices[a].idx <= g.devices[b].idx
        }),
{
    let raw = raw_groups(probes);
    let put = raw.map_values(|g: GroupView| ordered_group(g));
    let i = place_before_sorting(put, first_path_order(), k);
    lemma_raw_group_members(probes, i);
    let g = raw[i];
    sorted_keeps_length(g.devices, index_order());
    sorted_keeps_elements(g.devices, index_order(), d);
    sorted_is_ordered_rearrangement(g.devices, index_order());
    let s = sorted(g.devices, index_order());
    assert forall|a: int, b: int|
        #![trigger s[a], s[b]]
        0 <= a < b < s.len() implies s[a].idx <= s[b].idx by {
        assert(!index_order()(s[b], s[a]));
    }
}

/// A device stands alone exactly if it is a member of no filesystem of several.
pub proof fn singles_are_no_members(probes: Seq<ProbeView>, p: ProbeView)
    ensures
        probes.filter(is_single()).contains(p) <==> probes.contains(p) && p.multi is None,
{
    broadcast use vstd::seq_lib::group_filter_ensures;

    let f = probes.filter(is_single());
    if f.contains(p) {
        probes.lemma_filter_contains_rev(is_single(), p);
        let i = choose|i: int| 0 <= i < f.len() && f[i] == p;
        assert(is_single()(f[i]));
    }
    if probes.contains(p) && p.multi is None {
        let i = choose|i: int| 0 <= i < probes.len() && probes[i] == p;
        assert(is_single()(probes[i]));
    }
}

/// What is a member of a btrfs filesystem of several devices: the number of devices
/// is stored with the lowest byte first; of one device there is nothing to be a
/// member of.
pub proof fn btrfs_members_are_told_by_count(uuid: Seq<u8>, count: Seq<u8>)
    requires
        count.len() == 8,
    ensures
        ({
            let low = count[0] + 0x100 * count[1] + 0x1_0000 * count[2] + 0x100_0000 * count[3];
            let high = count[4] + 0x100 * count[5] + 0x1_0000 * count[6] + 0x100_0000 * count[7];
            &&& btrfs_member(uuid, count) is None <==> high == 0 && low <= 1
            &&& btrfs_member(uuid, count) matches Some(m) ==> m.fs_uuid == uuid && m.nr_devices
                == low
        }),
{
    reveal_with_fuel(little_endian, 9);
    let low = count[0] + 0x100 * count[1] + 0x1_0000 * count[2] + 0x100_0000 * count[3];
    let high = count[4] + 0x100 * count[5] + 0x1_0000 * count[6] + 0x100_0000 * count[7];
    assert(little_endian(count) == low + 0x1_0000_0000 * high);
}

/// The text in a label field of bytes ends at the first zero; white space around it
/// does not count, and there is no label where nothing else is left.
pub proof fn byte_labels_end_at_zero(t: Seq<char>, rest: Seq<u8>)
    requires
        !encode_utf8(t).contains(0u8),
    ensures
        bytes_label(encode_utf8(t)) == (if trimmed(t).len() > 0 {
            Some(trimmed(t))
        } else {
            None
        }),
        bytes_label(encode_utf8(t).push(0) + rest) == bytes_label(encode_utf8(t)),
{
    let a = encode_utf8(t);
    lemma_text_before_zero(a, rest);
    encode_utf8_valid_utf8(t);
    encode_utf8_decode_utf8(t);
}

proof fn lemma_text_before_zero(a: Seq<u8>, rest: Seq<u8>)
    requires
        !a.contains(0u8),
    ensures
        before_zero(a) == a,
        before_zero(a.push(0) + rest) == a,
    decreases a.len(),
{
    let b = a.push(0) + rest;
    if a.len() == 0 {
        assert(b[0] == 0);
    } else {
        assert(a[0] != 0 && b[0] == a[0]);
        assert(b.skip(1) =~= a.skip(1).push(0) + rest);
        assert(!a.skip(1).contains(0u8)) by {
            if a.skip(1).contains(0u8) {
                let i = choose|i: int| 0 <= i < a.skip(1).len() && a.skip(1)[i] == 0u8;
                assert(a[i + 1] == 0u8);
            }
        }
        lemma_text_before_zero(a.skip(1), rest);
        assert(before_zero(a) =~= a);
        assert(before_zero(b) =~= a);
    }
}

/// A label field of 16-bit units, the low byte of each first, ends at the first unit
/// that is zero.
pub proof fn wide_labels_end_at_zero(u: u16, b: Seq<u8>)
    ensures
        u != 0 ==> wide_units(seq![(u % 256) as u8, (u / 256) as u8] + b) == seq![u] + wide_units(
            b,
        ),
        wide_units(seq![0u8, 0u8] + b) == Seq::<u16>::empty(),
        wide_units(Seq::empty()) == Seq::<u16>::empty(),
{
    let s = seq![(u % 256) as u8, (u / 256) as u8] + b;
    assert(s.skip(2) =~= b);
    assert((s[0] + 256 * s[1]) as u16 == u);
    assert((seq![0u8, 0u8] + b)[0] == 0 && (seq![0u8, 0u8] + b)[1] == 0);
}

/// What the first bytes of a device, and those at fixed places behind, tell of its
/// filesystem; where several fit, the first in the order of this list.
pub proof fn magic_numbers_tell_filesystems(image: Seq<u8>)
    ensures
        ({
            let luks = image.len() >= 6 && image[0] == 0x4c && image[1] == 0x55 && image[2] == 0x4b
                && image[3] == 0x53 && image[4] == 0xba && image[5] == 0xbe;
            let xfs = image.len() >= 4 && image[0] == 0x58 && image[1] == 0x46 && image[2] == 0x53
                && image[3] == 0x42;
            let ext4 = image.len() >= 0x43a && image[0x438] == 0x53 && image[0x439] == 0xef;
            let f2fs = image.len() >= 0x404 && image[0x400] == 0x10 && image[0x401] == 0x20
                && image[0x402] == 0xf5 && image[0x403] == 0xf2;
            let bcachefs = image.len() >= 0x101c && image[0x1018] == 0xf6 && image[0x1019] == 0x73
                && image[0x101a] == 0x85 && image[0x101b] == 0xc6;
            let btrfs = image.len() >= 0x10048 && image[0x10040] == 0x5f && image[0x10041] == 0x42
                && image[0x10042] == 0x48 && image[0x10043] == 0x52 && image[0x10044] == 0x66
                && image[0x10045] == 0x53 && image[0x10046] == 0x5f && image[0x10047] == 0x4d;
            &&& luks ==> detected(image) == Some(FsType::Luks)
            &&& !luks && xfs ==> detected(image) == Some(FsType::Xfs)
            &&& !luks && !xfs && ext4 ==> detected(image) == Some(FsType::Ext4)
            &&& !luks && !xfs && !ext4 && f2fs ==> detected(image) == Some(FsType::F2fs)
            &&& !luks && !xfs && !ext4 && !f2fs && bcachefs ==> detected(image) == Some(
                FsType::Bcachefs,
            )
            &&& !luks && !xfs && !ext4 && !f2fs && !bcachefs && btrfs ==> detected(image) == Some(
                FsType::Btrfs,
            )
            &&& !luks && !xfs && !ext4 && !f2fs && !bcachefs && !btrfs ==> detected(image) is None
        }),
{
    lemma_magic(image, 0);
    lemma_magic(image, 1);
    lemma_magic(image, 2);
    lemma_magic(image, 3);
    lemma_magic(image, 4);
    lemma_magic(image, 5);
}

proof fn lemma_magic(image: Seq<u8>, i: int)
    requires
        0 <= i < 6,
    ensures
        ({
            let at = probe_window(i).offset as int;
            let magic = probe_magic(i);
            has_magic(image, i) <==> at + magic.len() <= image.len() && forall|j: int|
                0 <= j < magic.len() ==> image[at + j] == #[trigger] magic[j]
        }),
{
    let at = probe_window(i).offset as int;
    let magic = probe_magic(i);
    assert(magic.len() == probe_window(i).len);
    if at + magic.len() <= image.len() {
        let part = image.subrange(at, at + magic.len());
        if part == magic {
            assert forall|j: int| 0 <= j < magic.len() implies image[at + j]
                == #[trigger] magic[j] by {
                assert(part[j] == magic[j]);
            }
        }
        if forall|j: int| 0 <= j < magic.len() ==> image[at + j] == #[trigger] magic[j] {
            assert(part =~= magic);
        }
    }
}

/// A container has no label. That of an F2FS is in 16-bit units, that of any other
/// filesystem in bytes. A label that cannot be read is an error, except on a bcachefs,
/// where there is none then.
pub proof fn labels_are_read_by_type(ft: FsType, b: Vec<u8>, f: IoFailure)
    ensures
        fs_label(FsType::Luks, Ok(ReadOutcome::Bytes(b))) == Ok::<Option<Seq<char>>, ErrorView>(
            None,
        ),
        ft != FsType::Luks && ft != FsType::F2fs ==> fs_label(ft, Ok(ReadOutcome::Bytes(b)))
            == Ok::<Option<Seq<char>>, ErrorView>(bytes_label(b@)),
        fs_label(FsType::F2fs, Ok(ReadOutcome::Bytes(b))) == wide_label(b@),
        ft != FsType::Luks && ft != FsType::Bcachefs ==> fs_label(
            ft,
            Ok(ReadOutcome::Unreadable(f)),
        ) is Err,
        fs_label(FsType::Bcachefs, Ok(ReadOutcome::Unreadable(f))) == Ok::<
            Option<Seq<char>>,
            ErrorView,
        >(None),
        fs_label(ft, Err(f)) is Err,
{
}

/// A label in 16-bit units is the text of the units before the first zero, without white
/// space around it; where there is nothing else there is no label.
pub proof fn wide_labels_are_texts(b: Seq<u8>, t: Seq<char>)
    requires
        utf16_text(wide_units(b)) == Some(t),
    ensures
        wide_label(b) == Ok::<Option<Seq<char>>, ErrorView>(
            if trimmed(t).len() > 0 {
                Some(trimmed(t))
            } else {
                None
            },
        ),
{
    if wide_units(b).len() == 0 {
        assert(t =~= Seq::empty());
        assert(trimmed(t).len() == 0);
    }
}

/// Groups stand in the order of the paths of their first devices.
pub proof fn groups_in_path_order(probes: Seq<ProbeView>, i: int, j: int)
    requires
        0 <= i < j < device_groups(probes).len(),
    ensures
        !path_before(
            device_groups(probes)[j].devices[0].path,
            device_groups(probes)[i].devices[0].path,
        ),
{
    let raw = raw_groups(probes);
    let put = raw.map_values(|g: GroupView| ordered_group(g));
    let before = first_path_order();
    assert forall|a: GroupView, b: GroupView| #[trigger] before(a, b) implies !before(b, a) by {
        path_order_total(a.devices[0].path, b.devices[0].path);
    }
    assert forall|a: GroupView, b: GroupView, c: GroupView|
        #![trigger before(a, b), before(b, c)]
        before(a, c) implies before(a, b) || before(b, c) by {
        lemma_path_order_ranks(a.devices[0].path, b.devices[0].path, c.devices[0].path);
    }
    sorted_is_ordered_rearrangement(put, before);
    groups_have_devices(probes);
    let all = device_groups(probes);
    assert(has_devices()(all[i]) && has_devices()(all[j]));
    assert(!before(all[j], all[i]));
}

proof fn lemma_path_order_ranks(a: Seq<u8>, b: Seq<u8>, c: Seq<u8>)
    ensures
        path_before(a, c) ==> path_before(a, b) || path_before(b, c),
{
    path_order_total(a, b);
    path_order_total(b, c);
    path_order_total(a, c);
    if path_before(a, c) && !path_before(a, b) && !path_before(b, c) {
        if path_before(b, a) && path_before(c, b) {
            path_order_transitive(c, b, a);
        }
    }
}

/// Different filesystems are called differently.
pub proof fn filesystem_names_differ(a: FsType, b: FsType)
    requires
        a != b,
    ensures
        fs_name(a) != fs_name(b),
{
    reveal_strlit("ext4");
    reveal_strlit("btrfs");
    reveal_strlit("bcachefs");
    reveal_strlit("xfs");
    reveal_strlit("f2fs");
    reveal_strlit("crypto_LUKS");
    assert("ext4"@.len() == 4 && "btrfs"@.len() == 5 && "bcachefs"@.len() == 8 && "xfs"@.len() == 3
        && "f2fs"@.len() == 4 && "crypto_LUKS"@.len() == 11);
    assert("ext4"@[0] == 'e' && "f2fs"@[0] == 'f');
}

/// The label of a filesystem is what stands in its superblock: from the place that is
/// read, and from no other, it is told.
pub proof fn labels_stand_in_the_superblock(ft: FsType, image: Seq<u8>, r: ReadOutcome)
    requires
        label_place(ft) matches Some(w) && answers(r, image, w),
        r is Bytes,
    ensures
        ft == FsType::Ext4 ==> fs_label(ft, Ok(r)) == Ok::<Option<Seq<char>>, ErrorView>(
            bytes_label(image.subrange(0x478, 0x488)),
        ),
        ft == FsType::Btrfs ==> fs_label(ft, Ok(r)) == Ok::<Option<Seq<char>>, ErrorView>(
            bytes_label(image.subrange(0x1012b, 0x1022b)),
        ),
        ft == FsType::Bcachefs ==> fs_label(ft, Ok(r)) == Ok::<Option<Seq<char>>, ErrorView>(
            bytes_label(image.subrange(0x1048, 0x1068)),
        ),
        ft == FsType::Xfs ==> fs_label(ft, Ok(r)) == Ok::<Option<Seq<char>>, ErrorView>(
            bytes_label(image.subrange(108, 120)),
        ),
        ft == FsType::F2fs ==> fs_label(ft, Ok(r)) == wide_label(image.subrange(0x5a0, 0x7a0)),
        ft != FsType::Luks,
{
}

/// A btrfs device is a member of the filesystem whose UUID and number of devices stand in
/// its superblock; a device of any other filesystem is a member of none.
pub proof fn membership_stands_in_the_superblock(
    ft: FsType,
    image: Seq<u8>,
    reads: Vec<ReadOutcome>,
)
    requires
        reads@.len() == 2,
        answers(reads@[0], image, uuid_place()),
        answers(reads@[1], image, count_place()),
        image.len() >= 0x10090,
    ensures
        ft == FsType::Btrfs ==> membership(ft, Ok(reads)) == Ok::<Option<MemberView>, ErrorView>(
            btrfs_member(image.subrange(0x10020, 0x10030), image.subrange(0x10088, 0x10090)),
        ),
        ft != FsType::Btrfs ==> membership(ft, Ok(reads)) == Ok::<Option<MemberView>, ErrorView>(
            None,
        ),
{
}

proof fn lemma_probed_from(reads: Seq<ReadOutcome>, k: int, from: int)
    requires
        0 <= from <= k < PROBE_COUNT,
        forall|j: int|
            from <= j < k ==> match #[trigger] reads[j] {
                ReadOutcome::Bytes(b) => b@ != probe_magic(j),
                ReadOutcome::Unreadable(_) => true,
                ReadOutcome::Unreachable(_) => false,
            },
    ensures
        probed_from(reads, from) == probed_from(reads, k),
    decreases k - from,
{
    if from < k {
        let r = reads[from];
        lemma_probed_from(reads, k, from + 1);
    }
}

/// The first place that tells something decides: the magic number that stands there, or
/// that the device cannot be reached. A place that is too far behind tells nothing.
pub proof fn first_telling_read_decides(reads: Vec<ReadOutcome>, k: int)
    requires
        reads@.len() == PROBE_COUNT,
        0 <= k < PROBE_COUNT,
        forall|j: int|
            0 <= j < k ==> match #[trigger] reads@[j] {
                ReadOutcome::Bytes(b) => b@ != probe_magic(j),
                ReadOutcome::Unreadable(_) => true,
                ReadOutcome::Unreachable(_) => false,
            },
    ensures
        reads@[k] matches ReadOutcome::Unreachable(f) ==> probed(Ok(reads)) == Err::<
            Option<FsType>,
            ErrorView,
        >(ErrorView::Io(f.code, f.message@)),
        reads@[k] matches ReadOutcome::Bytes(b) ==> (b@ == probe_magic(k) ==> probed(Ok(reads))
            == Ok::<Option<FsType>, ErrorView>(Some(probe_type(k)))),
{
    lemma_probed_from(reads@, k, 0);
}

} // verus!
