//! What is done outside, step by step: booting, unlocking a source, and mounting a
//! group of devices. Each function tells from what was done last what comes next.

use vstd::prelude::*;

use crate::discover::{
    inner_filesystem, mapped_device_of, mapped_place, outcome_view, scan_error, tool_complaint,
    tool_error, unlock_and_mount, unlock_plan, GroupMount, GroupMountView, UnlockPlan, UnlockView,
};
use crate::mount::FsType;
use crate::path::{path_text, BootPath};
use crate::tree::io_error;
use crate::types::{Error, ErrorView, IoFailure};

verus! {

/// The view of the outcome of something that gives nothing back.
pub open spec fn done_view(r: Result<(), Error>) -> Result<(), ErrorView> {
    match r {
        Ok(_) => Ok(()),
        Err(e) => Err(e@),
    }
}

// --- Booting ---

/// What was done last while booting, and what came of it.
#[derive(Debug)]
pub enum BootEvent {
    /// Nothing was done yet.
    Start,
    Loaded(Result<(), Error>),
    Remembered(Result<(), Error>),
    Started(Result<(), Error>),
}

/// What comes next while booting.
#[derive(Debug)]
pub enum BootStep {
    /// Load the kernel.
    Load,
    /// Write the selection to its EFI variable.
    Remember,
    /// Start the loaded kernel.
    Exec,
    /// Nothing more: this came of it.
    End(Result<(), Error>),
}

/// The model of what was done last while booting.
pub enum BootEventView {
    Start,
    Loaded(Result<(), ErrorView>),
    Remembered(Result<(), ErrorView>),
    Started(Result<(), ErrorView>),
}

/// The model of what comes next while booting.
pub enum BootStepView {
    Load,
    Remember,
    Exec,
    End(Result<(), ErrorView>),
}

impl View for BootEvent {
    type V = BootEventView;

    open spec fn view(&self) -> BootEventView {
        match self {
            BootEvent::Start => BootEventView::Start,
            BootEvent::Loaded(r) => BootEventView::Loaded(done_view(*r)),
            BootEvent::Remembered(r) => BootEventView::Remembered(done_view(*r)),
            BootEvent::Started(r) => BootEventView::Started(done_view(*r)),
        }
    }
}

impl View for BootStep {
    type V = BootStepView;

    open spec fn view(&self) -> BootStepView {
        match self {
            BootStep::Load => BootStepView::Load,
            BootStep::Remember => BootStepView::Remember,
            BootStep::Exec => BootStepView::Exec,
            BootStep::End(r) => BootStepView::End(done_view(*r)),
        }
    }
}

/// What comes next while booting. A kernel that could not be loaded is not started,
/// and nothing is remembered of it. Not being able to remember the selection is no
/// reason not to boot.
pub open spec fn boot_next(remembers: bool, event: BootEventView) -> BootStepView {
    match event {
        BootEventView::Start => BootStepView::Load,
        BootEventView::Loaded(Ok(_)) => if remembers {
            BootStepView::Remember
        } else {
            BootStepView::Exec
        },
        BootEventView::Loaded(Err(e)) => BootStepView::End(Err(e)),
        BootEventView::Remembered(_) => BootStepView::Exec,
        BootEventView::Started(r) => BootStepView::End(r),
    }
}

/// Tells what comes next while booting. The selection is remembered for an entry,
/// not for a bare kernel file.
pub fn boot_step(remembers: bool, event: BootEvent) -> (r: BootStep)
    ensures
        r@ == boot_next(remembers, event@),
{
    match event {
        BootEvent::Start => BootStep::Load,
        BootEvent::Loaded(Ok(_)) => if remembers {
            BootStep::Remember
        } else {
            BootStep::Exec
        },
        BootEvent::Loaded(Err(e)) => BootStep::End(Err(e)),
        BootEvent::Remembered(_) => BootStep::Exec,
        BootEvent::Started(r) => BootStep::End(r),
    }
}

/// What comes of each step of booting, if it is taken.
pub struct BootWorld {
    pub loaded: Result<(), ErrorView>,
    pub remembered: Result<(), ErrorView>,
    pub started: Result<(), ErrorView>,
}

/// How many events of booting may still follow.
pub open spec fn boot_rank(event: BootEventView) -> int {
    match event {
        BootEventView::Start => 3,
        BootEventView::Loaded(_) => 2,
        BootEventView::Remembered(_) => 1,
        BootEventView::Started(_) => 0,
    }
}

/// All steps of booting that follow an event.
pub open spec fn boot_steps(remembers: bool, event: BootEventView, w: BootWorld) -> Seq<
    BootStepView,
>
    decreases boot_rank(event),
{
    let step = boot_next(remembers, event);
    let rest = match step {
        BootStepView::Load => boot_steps(remembers, BootEventView::Loaded(w.loaded), w),
        BootStepView::Remember => boot_steps(
            remembers,
            BootEventView::Remembered(w.remembered),
            w,
        ),
        BootStepView::Exec => boot_steps(remembers, BootEventView::Started(w.started), w),
        BootStepView::End(_) => Seq::empty(),
    };
    seq![step] + rest
}

/// An entry is booted in this order: the kernel is loaded, the selection is
/// remembered whether or not that succeeds, and the kernel is started, of which the
/// outcome is that of booting. If the kernel could not be loaded, booting ends with
/// that failure, and nothing else is done. A bare kernel file is booted in the same
/// way, but nothing is remembered.
pub proof fn booting_has_its_order(remembers: bool, w: BootWorld)
    ensures
        boot_steps(remembers, BootEventView::Start, w) == (match w.loaded {
            Err(e) => seq![BootStepView::Load, BootStepView::End(Err(e))],
            Ok(_) => if remembers {
                seq![
                    BootStepView::Load,
                    BootStepView::Remember,
                    BootStepView::Exec,
                    BootStepView::End(w.started),
                ]
            } else {
                seq![BootStepView::Load, BootStepView::Exec, BootStepView::End(w.started)]
            },
        }),
{
    reveal_with_fuel(boot_steps, 4);
}

// --- Running a program ---

/// What running a program gave.
#[derive(Debug)]
pub enum ToolOutcome {
    /// It ran: whether it succeeded, and what it complained of.
    Ran { success: bool, stderr: Vec<u8> },
    /// It could not be run.
    NotRun(IoFailure),
}

/// Whether a program did its work, or what went wrong.
pub open spec fn tool_result(tool: Seq<char>, o: ToolOutcome) -> Result<(), ErrorView> {
    match o {
        ToolOutcome::Ran { success, stderr } => if success {
            Ok(())
        } else {
            Err(ErrorView::Parse(tool_complaint(tool, stderr@)))
        },
        ToolOutcome::NotRun(f) => Err(io_error(f)),
    }
}

/// A program did its work exactly if it ran and succeeded, whatever it wrote; else what
/// went wrong is told.
pub proof fn programs_that_succeed_did_their_work(tool: Seq<char>, o: ToolOutcome)
    ensures
        tool_result(tool, o) is Ok <==> (o matches ToolOutcome::Ran { success, .. } && success),
        o matches ToolOutcome::NotRun(f) ==> tool_result(tool, o) == Err::<(), ErrorView>(
            ErrorView::Io(f.code, f.message@),
        ),
{
}

fn check_tool(tool: &str, o: ToolOutcome) -> (r: Result<(), Error>)
    ensures
        done_view(r) == tool_result(tool@, o),
{
    match o {
        ToolOutcome::Ran { success, stderr } => if success {
            Ok(())
        } else {
            Err(tool_error(tool, stderr.as_slice()))
        },
        ToolOutcome::NotRun(f) => Err(Error::Io(f)),
    }
}

// --- Unlocking a source ---

/// What was done last while unlocking a source, and what came of it.
#[derive(Debug)]
pub enum UnlockEvent {
    /// Nothing was done yet.
    Start,
    /// The device was probed.
    Probed(Result<Option<FsType>, Error>),
    /// `cryptsetup` was run.
    Opened(ToolOutcome),
    /// The device inside a container was probed.
    InnerProbed(Result<Option<FsType>, Error>),
    /// `bcachefs unlock` was run.
    Unlocked(ToolOutcome),
    Mounted(Result<BootPath, Error>),
}

/// What comes next while unlocking a source.
#[derive(Debug)]
pub enum UnlockStep {
    /// Probe the device.
    Probe,
    /// Open the container on the device under the given name.
    OpenContainer { mapper_name: String },
    /// Probe the given device, which is that inside the container.
    ProbeInner(BootPath),
    /// Unlock the bcachefs on the device.
    UnlockBcachefs,
    /// Mount a device.
    Mount { device: BootPath, fstype: FsType },
    /// Nothing more: this came of it.
    End(Result<BootPath, Error>),
}

/// The model of what was done last while unlocking a source.
pub enum UnlockEventView {
    Start,
    Probed(Result<Option<FsType>, ErrorView>),
    Opened(Result<(), ErrorView>),
    InnerProbed(Result<Option<FsType>, ErrorView>),
    Unlocked(Result<(), ErrorView>),
    Mounted(Result<Seq<u8>, ErrorView>),
}

/// The model of what comes next while unlocking a source.
pub enum UnlockStepView {
    Probe,
    OpenContainer { mapper_name: Seq<char> },
    ProbeInner(Seq<u8>),
    UnlockBcachefs,
    Mount { device: Seq<u8>, fstype: FsType },
    End(Result<Seq<u8>, ErrorView>),
}

/// The view of what probing gave.
pub open spec fn probe_view(r: Result<Option<FsType>, Error>) -> Result<
    Option<FsType>,
    ErrorView,
> {
    match r {
        Ok(t) => Ok(t),
        Err(e) => Err(e@),
    }
}

impl View for UnlockEvent {
    type V = UnlockEventView;

    open spec fn view(&self) -> UnlockEventView {
        match self {
            UnlockEvent::Start => UnlockEventView::Start,
            UnlockEvent::Probed(r) => UnlockEventView::Probed(probe_view(*r)),
            UnlockEvent::Opened(o) => UnlockEventView::Opened(tool_result("cryptsetup"@, *o)),
            UnlockEvent::InnerProbed(r) => UnlockEventView::InnerProbed(probe_view(*r)),
            UnlockEvent::Unlocked(o) => UnlockEventView::Unlocked(
                tool_result("bcachefs unlock"@, *o),
            ),
            UnlockEvent::Mounted(r) => UnlockEventView::Mounted(outcome_view(*r)),
        }
    }
}

impl View for UnlockStep {
    type V = UnlockStepView;

    open spec fn view(&self) -> UnlockStepView {
        match self {
            UnlockStep::Probe => UnlockStepView::Probe,
            UnlockStep::OpenContainer { mapper_name } => UnlockStepView::OpenContainer {
                mapper_name: mapper_name@,
            },
            UnlockStep::ProbeInner(p) => UnlockStepView::ProbeInner(p@),
            UnlockStep::UnlockBcachefs => UnlockStepView::UnlockBcachefs,
            UnlockStep::Mount { device, fstype } => UnlockStepView::Mount {
                device: device@,
                fstype: *fstype,
            },
            UnlockStep::End(r) => UnlockStepView::End(outcome_view(*r)),
        }
    }
}

/// What comes next while unlocking the source on a device. Whatever fails ends it
/// with that failure.
pub open spec fn unlock_next(dev: Seq<u8>, event: UnlockEventView) -> UnlockStepView {
    match event {
        UnlockEventView::Start => UnlockStepView::Probe,
        UnlockEventView::Probed(Err(e)) => UnlockStepView::End(Err(e)),
        UnlockEventView::Probed(Ok(ft)) => match unlock_plan(dev, ft) {
            Ok(UnlockView::Luks { mapper_name, mapped }) => UnlockStepView::OpenContainer {
                mapper_name,
            },
            Ok(UnlockView::Bcachefs) => UnlockStepView::UnlockBcachefs,
            Err(m) => UnlockStepView::End(Err(ErrorView::Parse(m))),
        },
        UnlockEventView::Opened(Err(e)) => UnlockStepView::End(Err(e)),
        UnlockEventView::Opened(Ok(_)) => UnlockStepView::ProbeInner(mapped_place(dev)),
        UnlockEventView::InnerProbed(Err(e)) => UnlockStepView::End(Err(e)),
        UnlockEventView::InnerProbed(Ok(None)) => UnlockStepView::End(
            Err(ErrorView::Parse("no filesystem inside LUKS container"@)),
        ),
        UnlockEventView::InnerProbed(Ok(Some(ft))) => UnlockStepView::Mount {
            device: mapped_place(dev),
            fstype: ft,
        },
        UnlockEventView::Unlocked(Err(e)) => UnlockStepView::End(Err(e)),
        UnlockEventView::Unlocked(Ok(_)) => UnlockStepView::Mount {
            device: dev,
            fstype: FsType::Bcachefs,
        },
        UnlockEventView::Mounted(r) => UnlockStepView::End(r),
    }
}

/// Tells what comes next while unlocking the source on a device.
pub fn unlock_step(dev: &BootPath, event: UnlockEvent) -> (r: UnlockStep)
    ensures
        r@ == unlock_next(dev@, event@),
{
    match event {
        UnlockEvent::Start => UnlockStep::Probe,
        UnlockEvent::Probed(Err(e)) => UnlockStep::End(Err(e)),
        UnlockEvent::Probed(Ok(ft)) => match unlock_and_mount(dev, ft) {
            Ok(UnlockPlan::Luks { mapper_name, mapped: _ }) => UnlockStep::OpenContainer {
                mapper_name,
            },
            Ok(UnlockPlan::Bcachefs) => UnlockStep::UnlockBcachefs,
            Err(e) => UnlockStep::End(Err(e)),
        },
        UnlockEvent::Opened(o) => match check_tool("cryptsetup", o) {
            Ok(_) => UnlockStep::ProbeInner(mapped_device_of(dev)),
            Err(e) => UnlockStep::End(Err(e)),
        },
        UnlockEvent::InnerProbed(Err(e)) => UnlockStep::End(Err(e)),
        UnlockEvent::InnerProbed(Ok(ft)) => match inner_filesystem(ft) {
            Ok(fstype) => UnlockStep::Mount { device: mapped_device_of(dev), fstype },
            Err(e) => UnlockStep::End(Err(e)),
        },
        UnlockEvent::Unlocked(o) => match check_tool("bcachefs unlock", o) {
            Ok(_) => UnlockStep::Mount { device: dev.clone(), fstype: FsType::Bcachefs },
            Err(e) => UnlockStep::End(Err(e)),
        },
        UnlockEvent::Mounted(r) => UnlockStep::End(r),
    }
}

/// What comes of each step of unlocking a source, if it is taken.
pub struct UnlockWorld {
    pub probed: Result<Option<FsType>, ErrorView>,
    pub opened: Result<(), ErrorView>,
    pub inner: Result<Option<FsType>, ErrorView>,
    pub unlocked: Result<(), ErrorView>,
    pub mounted: Result<Seq<u8>, ErrorView>,
}

/// How many events of unlocking may still follow.
pub open spec fn unlock_rank(event: UnlockEventView) -> int {
    match event {
        UnlockEventView::Start => 4,
        UnlockEventView::Probed(_) => 3,
        UnlockEventView::Opened(_) => 2,
        UnlockEventView::InnerProbed(_) => 1,
        UnlockEventView::Unlocked(_) => 1,
        UnlockEventView::Mounted(_) => 0,
    }
}

/// All steps of unlocking a source that follow an event.
pub open spec fn unlock_steps(dev: Seq<u8>, event: UnlockEventView, w: UnlockWorld) -> Seq<
    UnlockStepView,
>
    decreases unlock_rank(event),
{
    let step = unlock_next(dev, event);
    let rest = match step {
        UnlockStepView::Probe => unlock_steps(dev, UnlockEventView::Probed(w.probed), w),
        UnlockStepView::OpenContainer { .. } => unlock_steps(
            dev,
            UnlockEventView::Opened(w.opened),
            w,
        ),
        UnlockStepView::ProbeInner(_) => unlock_steps(
            dev,
            UnlockEventView::InnerProbed(w.inner),
            w,
        ),
        UnlockStepView::UnlockBcachefs => unlock_steps(
            dev,
            UnlockEventView::Unlocked(w.unlocked),
            w,
        ),
        UnlockStepView::Mount { .. } => unlock_steps(dev, UnlockEventView::Mounted(w.mounted), w),
        UnlockStepView::End(_) => Seq::empty(),
    };
    seq![step] + rest
}

/// A device that cannot be probed, or holds nothing that can be unlocked, is neither
/// unlocked nor mounted: unlocking ends with that failure.
pub proof fn what_is_not_encrypted_is_left_alone(dev: Seq<u8>, w: UnlockWorld)
    ensures
        w.probed matches Err(e) ==> unlock_steps(dev, UnlockEventView::Start, w) == seq![
            UnlockStepView::Probe,
            UnlockStepView::End(Err(e)),
        ],
        w.probed matches Ok(ft) ==> (unlock_plan(dev, ft) matches Err(m) ==> unlock_steps(
            dev,
            UnlockEventView::Start,
            w,
        ) == seq![UnlockStepView::Probe, UnlockStepView::End(Err(ErrorView::Parse(m)))]),
{
    reveal_with_fuel(unlock_steps, 2);
}

/// A container is opened, then the device inside is probed, and that device is
/// mounted last, with the filesystem found on it. Whatever fails before ends it with
/// that failure, and nothing is mounted.
pub proof fn containers_are_unlocked_in_order(dev: Seq<u8>, w: UnlockWorld)
    requires
        w.probed == Ok::<Option<FsType>, ErrorView>(Some(FsType::Luks)),
    ensures
        ({
            let steps = unlock_steps(dev, UnlockEventView::Start, w);
            let open = UnlockStepView::OpenContainer {
                mapper_name: crate::discover::mapper_name(dev),
            };
            let inside = UnlockStepView::ProbeInner(mapped_place(dev));
            match w.opened {
                Err(e) => steps == seq![UnlockStepView::Probe, open, UnlockStepView::End(Err(e))],
                Ok(_) => match w.inner {
                    Err(e) => steps == seq![
                        UnlockStepView::Probe,
                        open,
                        inside,
                        UnlockStepView::End(Err(e)),
                    ],
                    Ok(None) => steps == seq![
                        UnlockStepView::Probe,
                        open,
                        inside,
                        UnlockStepView::End(
                            Err(ErrorView::Parse("no filesystem inside LUKS container"@)),
                        ),
                    ],
                    Ok(Some(fstype)) => steps == seq![
                        UnlockStepView::Probe,
                        open,
                        inside,
                        UnlockStepView::Mount { device: mapped_place(dev), fstype },
                        UnlockStepView::End(w.mounted),
                    ],
                },
            }
        }),
{
    reveal_with_fuel(unlock_steps, 5);
}

/// A bcachefs is unlocked and then mounted as it is. If it could not be unlocked,
/// nothing is mounted, and unlocking ends with that failure.
pub proof fn bcachefs_is_unlocked_in_order(dev: Seq<u8>, w: UnlockWorld)
    requires
        w.probed == Ok::<Option<FsType>, ErrorView>(Some(FsType::Bcachefs)),
    ensures
        unlock_steps(dev, UnlockEventView::Start, w) == (match w.unlocked {
            Err(e) => seq![
                UnlockStepView::Probe,
                UnlockStepView::UnlockBcachefs,
                UnlockStepView::End(Err(e)),
            ],
            Ok(_) => seq![
                UnlockStepView::Probe,
                UnlockStepView::UnlockBcachefs,
                UnlockStepView::Mount { device: dev, fstype: FsType::Bcachefs },
                UnlockStepView::End(w.mounted),
            ],
        }),
{
    reveal_with_fuel(unlock_steps, 4);
}

// --- Mounting a group ---

/// What was done last while mounting a group, and what came of it.
#[derive(Debug)]
pub enum GroupEvent {
    /// Nothing was done yet.
    Start,
    /// `btrfs device scan` was run on the device with this number.
    Scanned(usize, ToolOutcome),
    Mounted(Result<BootPath, Error>),
}

/// What comes next while mounting a group.
#[derive(Debug)]
pub enum GroupStep {
    /// Make the device with this number known to the kernel.
    Scan(usize),
    /// Mount the group.
    Mount,
    /// Nothing more: this came of it.
    End(Result<BootPath, Error>),
}

/// The model of what was done last while mounting a group.
pub enum GroupEventView {
    Start,
    Scanned(int, ToolOutcome),
    Mounted(Result<Seq<u8>, ErrorView>),
}

/// The model of what comes next while mounting a group.
pub enum GroupStepView {
    Scan(int),
    Mount,
    End(Result<Seq<u8>, ErrorView>),
}

impl View for GroupEvent {
    type V = GroupEventView;

    open spec fn view(&self) -> GroupEventView {
        match self {
            GroupEvent::Start => GroupEventView::Start,
            GroupEvent::Scanned(i, o) => GroupEventView::Scanned(*i as int, *o),
            GroupEvent::Mounted(r) => GroupEventView::Mounted(outcome_view(*r)),
        }
    }
}

impl View for GroupStep {
    type V = GroupStepView;

    open spec fn view(&self) -> GroupStepView {
        match self {
            GroupStep::Scan(i) => GroupStepView::Scan(*i as int),
            GroupStep::Mount => GroupStepView::Mount,
            GroupStep::End(r) => GroupStepView::End(outcome_view(*r)),
        }
    }
}

/// What scanning a device came to.
pub open spec fn scan_result(dev: Seq<u8>, o: ToolOutcome) -> Result<(), ErrorView> {
    tool_result("btrfs device scan "@ + path_text(dev), o)
}

/// The step for the device with the given number: to scan it, or to mount the group
/// if there is none.
pub open spec fn scan_or_mount(plan: GroupMountView, i: int) -> GroupStepView {
    if i < plan.scan.len() {
        GroupStepView::Scan(i)
    } else {
        GroupStepView::Mount
    }
}

/// What comes next while mounting a group: each device is scanned, and then the
/// group is mounted. A failure ends it.
pub open spec fn group_next(plan: GroupMountView, event: GroupEventView) -> GroupStepView {
    match event {
        GroupEventView::Start => scan_or_mount(plan, 0),
        GroupEventView::Scanned(i, o) => match scan_result(plan.scan[i], o) {
            Ok(_) => scan_or_mount(plan, i + 1),
            Err(e) => GroupStepView::End(Err(e)),
        },
        GroupEventView::Mounted(r) => GroupStepView::End(r),
    }
}

/// Tells what comes next while mounting a group.
pub fn group_step(plan: &GroupMount, event: GroupEvent) -> (r: GroupStep)
    requires
        event matches GroupEvent::Scanned(i, o) ==> i < plan.scan@.len(),
    ensures
        r@ == group_next(plan@, event@),
{
    assert(plan@.scan.len() == plan.scan@.len());
    match event {
        GroupEvent::Start => if plan.scan.len() > 0 {
            GroupStep::Scan(0)
        } else {
            GroupStep::Mount
        },
        GroupEvent::Scanned(i, o) => {
            assert(plan@.scan[i as int] == plan.scan@[i as int]@);
            let e = match o {
                ToolOutcome::Ran { success, stderr } => if success {
                    return if i < plan.scan.len() - 1 {
                        GroupStep::Scan(i + 1)
                    } else {
                        GroupStep::Mount
                    };
                } else {
                    scan_error(&plan.scan[i], stderr.as_slice())
                },
                ToolOutcome::NotRun(f) => Error::Io(f),
            };
            GroupStep::End(Err(e))
        },
        GroupEvent::Mounted(r) => GroupStep::End(r),
    }
}

/// What comes of each step of mounting a group, if it is taken.
pub struct GroupWorld {
    pub scanned: Seq<ToolOutcome>,
    pub mounted: Result<Seq<u8>, ErrorView>,
}

/// All steps of mounting a group, from the device with the given number on.
pub open spec fn group_steps(plan: GroupMountView, i: int, w: GroupWorld) -> Seq<GroupStepView>
    decreases plan.scan.len() - i,
{
    let step = scan_or_mount(plan, i);
    if i < plan.scan.len() {
        let next = group_next(plan, GroupEventView::Scanned(i, w.scanned[i]));
        seq![step] + if next is End {
            seq![next]
        } else {
            group_steps(plan, i + 1, w)
        }
    } else {
        seq![step, group_next(plan, GroupEventView::Mounted(w.mounted))]
    }
}

/// Scanning the devices from one number up to another.
pub open spec fn scans(from: int, to: int) -> Seq<GroupStepView> {
    Seq::new((to - from) as nat, |k: int| GroupStepView::Scan(from + k))
}

/// A group is mounted once all its devices that have to be known were scanned, in
/// order, and the outcome is that of mounting it.
pub proof fn groups_are_mounted_last(plan: GroupMountView, i: int, w: GroupWorld)
    requires
        0 <= i <= plan.scan.len(),
        forall|k: int|
            i <= k < plan.scan.len() ==> scan_result(#[trigger] plan.scan[k], w.scanned[k]) is Ok,
    ensures
        group_steps(plan, i, w) == scans(i, plan.scan.len() as int) + seq![
            GroupStepView::Mount,
            GroupStepView::End(w.mounted),
        ],
    decreases plan.scan.len() - i,
{
    let n = plan.scan.len() as int;
    if i < n {
        assert(scan_result(plan.scan[i], w.scanned[i]) is Ok);
        groups_are_mounted_last(plan, i + 1, w);
        assert(scans(i, n) =~= seq![GroupStepView::Scan(i)] + scans(i + 1, n));
    }
    assert(group_steps(plan, i, w) =~= scans(i, n) + seq![
        GroupStepView::Mount,
        GroupStepView::End(w.mounted),
    ]);
}

/// If scanning a device fails, no other device is scanned and nothing is mounted:
/// mounting the group ends with that failure.
pub proof fn a_failed_scan_mounts_nothing(
    plan: GroupMountView,
    i: int,
    failed: int,
    e: ErrorView,
    w: GroupWorld,
)
    requires
        0 <= i <= failed < plan.scan.len(),
        forall|k: int|
            i <= k < failed ==> scan_result(#[trigger] plan.scan[k], w.scanned[k]) is Ok,
        scan_result(plan.scan[failed], w.scanned[failed]) == Err::<(), ErrorView>(e),
    ensures
        group_steps(plan, i, w) == scans(i, failed + 1) + seq![GroupStepView::End(Err(e))],
    decreases failed - i,
{
    if i < failed {
        assert(scan_result(plan.scan[i], w.scanned[i]) is Ok);
        a_failed_scan_mounts_nothing(plan, i + 1, failed, e, w);
        assert(scans(i, failed + 1) =~= seq![GroupStepView::Scan(i)] + scans(i + 1, failed + 1));
    }
    assert(group_steps(plan, i, w) =~= scans(i, failed + 1) + seq![GroupStepView::End(Err(e))]);
}

} // verus!
