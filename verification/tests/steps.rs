//! Booting, unlocking and mounting, step by step.

use kexec_menu::discover::{mapped_device_of, GroupMount};
use kexec_menu::mount::FsType;
use kexec_menu::path::BootPath;
use kexec_menu::steps::{
    boot_step, group_step, unlock_step, BootEvent, BootStep, GroupEvent, GroupStep, ToolOutcome,
    UnlockEvent, UnlockStep,
};
use kexec_menu::types::{Error, IoFailure};

fn bad(message: &str) -> Error {
    Error::Io(IoFailure { code: Some(5), message: message.into() })
}

fn text<T>(r: Result<T, Error>) -> String {
    match r {
        Ok(_) => "ok".to_string(),
        Err(e) => e.to_text(),
    }
}

fn outcome(failing: &[&str], step: &str) -> Result<(), Error> {
    if failing.contains(&step) {
        Err(bad(step))
    } else {
        Ok(())
    }
}

// --- Booting ---

fn boot(remembers: bool, failing: &[&str]) -> Vec<String> {
    let mut done = Vec::new();
    let mut event = BootEvent::Start;
    loop {
        event = match boot_step(remembers, event) {
            BootStep::Load => {
                done.push("load".into());
                BootEvent::Loaded(outcome(failing, "load"))
            }
            BootStep::Remember => {
                done.push("remember".into());
                BootEvent::Remembered(outcome(failing, "remember"))
            }
            BootStep::Exec => {
                done.push("exec".into());
                BootEvent::Started(outcome(failing, "exec"))
            }
            BootStep::End(r) => {
                done.push(format!("end: {}", text(r)));
                return done;
            }
        };
    }
}

#[test]
fn an_entry_is_loaded_remembered_and_started() {
    assert_eq!(boot(true, &[]), ["load", "remember", "exec", "end: ok"]);
    assert_eq!(boot(true, &["remember"]), ["load", "remember", "exec", "end: ok"]);
    assert_eq!(boot(true, &["remember", "exec"]), ["load", "remember", "exec", "end: exec"]);
}

#[test]
fn a_failed_load_ends_booting() {
    assert_eq!(boot(true, &["load"]), ["load", "end: load"]);
    assert_eq!(boot(false, &["load", "exec"]), ["load", "end: load"]);
}

#[test]
fn a_bare_file_is_not_remembered() {
    assert_eq!(boot(false, &[]), ["load", "exec", "end: ok"]);
    assert_eq!(boot(false, &["exec"]), ["load", "exec", "end: exec"]);
}

// --- Unlocking ---

fn ran(failing: &[&str], step: &str) -> ToolOutcome {
    if failing.contains(&step) {
        ToolOutcome::Ran { success: false, stderr: format!(" {step} refused\n").into_bytes() }
    } else {
        ToolOutcome::Ran { success: true, stderr: b"chatter".to_vec() }
    }
}

fn probed(failing: &[&str], step: &str, ft: Option<FsType>) -> Result<Option<FsType>, Error> {
    outcome(failing, step).map(|_| ft)
}

fn unlock(ft: Option<FsType>, inner: Option<FsType>, failing: &[&str]) -> Vec<String> {
    let dev = BootPath::from_text("/dev/sda2");
    let mut done = Vec::new();
    let mut event = UnlockEvent::Start;
    loop {
        event = match unlock_step(&dev, event) {
            UnlockStep::Probe => {
                done.push("probe".into());
                UnlockEvent::Probed(probed(failing, "probe", ft))
            }
            UnlockStep::OpenContainer { mapper_name } => {
                done.push(format!("open {mapper_name}"));
                UnlockEvent::Opened(ran(failing, "open"))
            }
            UnlockStep::ProbeInner(p) => {
                done.push(format!("probe {}", p.to_text()));
                UnlockEvent::InnerProbed(probed(failing, "inner", inner))
            }
            UnlockStep::UnlockBcachefs => {
                done.push("unlock".into());
                UnlockEvent::Unlocked(ran(failing, "unlock"))
            }
            UnlockStep::Mount { device, fstype } => {
                done.push(format!("mount {} {}", device.to_text(), fstype.as_str()));
                UnlockEvent::Mounted(outcome(failing, "mount").map(|_| BootPath::from_text("/m")))
            }
            UnlockStep::End(r) => {
                done.push(format!("end: {}", text(r.map(|p| assert_eq!(p.to_text(), "/m")))));
                return done;
            }
        };
    }
}

#[test]
fn a_container_is_opened_probed_and_mounted() {
    let luks = Some(FsType::Luks);
    let ext4 = Some(FsType::Ext4);
    let opened = ["probe", "open kexec-sda2", "probe /dev/mapper/kexec-sda2"];
    let mounted = [&opened[..], &["mount /dev/mapper/kexec-sda2 ext4"]].concat();
    assert_eq!(unlock(luks, ext4, &[]), [&mounted[..], &["end: ok"]].concat());
    assert_eq!(unlock(luks, ext4, &["mount"]), [&mounted[..], &["end: mount"]].concat());
    assert_eq!(unlock(luks, ext4, &["inner"]), [&opened[..], &["end: inner"]].concat());
    assert_eq!(
        unlock(luks, None, &[]),
        [&opened[..], &["end: no filesystem inside LUKS container"]].concat()
    );
    assert_eq!(
        unlock(luks, ext4, &["open"]),
        ["probe", "open kexec-sda2", "end: cryptsetup: open refused"]
    );
    assert_eq!(mapped_device_of(&BootPath::from_text("/")).to_text(), "/dev/mapper/kexec-unknown");
}

#[test]
fn a_bcachefs_is_unlocked_and_mounted() {
    let ft = Some(FsType::Bcachefs);
    assert_eq!(unlock(ft, None, &[]), ["probe", "unlock", "mount /dev/sda2 bcachefs", "end: ok"]);
    assert_eq!(
        unlock(ft, None, &["unlock"]),
        ["probe", "unlock", "end: bcachefs unlock: unlock refused"]
    );
}

#[test]
fn what_cannot_be_unlocked_is_not_touched() {
    assert_eq!(unlock(Some(FsType::Luks), None, &["probe"]), ["probe", "end: probe"]);
    assert_eq!(unlock(None, None, &[]), ["probe", "end: unknown filesystem"]);
    assert_eq!(unlock(Some(FsType::Xfs), None, &[]), ["probe", "end: xfs is not encrypted"]);
}

#[test]
fn a_program_that_cannot_be_run_is_reported() {
    let dev = BootPath::from_text("/dev/sda2");
    let missing = IoFailure { code: Some(2), message: "not found".into() };
    match unlock_step(&dev, UnlockEvent::Opened(ToolOutcome::NotRun(missing))) {
        UnlockStep::End(Err(Error::Io(f))) => assert_eq!((f.code, f.message.as_str()), (Some(2), "not found")),
        other => panic!("{other:?}"),
    }
}

// --- Mounting a group ---

fn mount(devices: &[&str], failing: &[&str]) -> Vec<String> {
    let plan = GroupMount {
        scan: devices.iter().map(|d| BootPath::from_text(d)).collect(),
        source: BootPath::from_text("/dev/a"),
        mount_point: BootPath::from_text("/m"),
        options: "",
    };
    let mut done = Vec::new();
    let mut event = GroupEvent::Start;
    loop {
        event = match group_step(&plan, event) {
            GroupStep::Scan(i) => {
                done.push(format!("scan {}", devices[i]));
                GroupEvent::Scanned(i, ran(failing, devices[i]))
            }
            GroupStep::Mount => {
                done.push("mount".into());
                GroupEvent::Mounted(outcome(failing, "mount").map(|_| BootPath::from_text("/m")))
            }
            GroupStep::End(r) => {
                done.push(format!("end: {}", text(r)));
                return done;
            }
        };
    }
}

#[test]
fn a_group_is_scanned_and_then_mounted() {
    assert_eq!(mount(&["/dev/a", "/dev/b"], &[]), ["scan /dev/a", "scan /dev/b", "mount", "end: ok"]);
    assert_eq!(mount(&[], &["mount"]), ["mount", "end: mount"]);
}

#[test]
fn a_failed_scan_ends_mounting() {
    assert_eq!(
        mount(&["/dev/a", "/dev/b", "/dev/c"], &["/dev/b"]),
        ["scan /dev/a", "scan /dev/b", "end: btrfs device scan /dev/b: /dev/b refused"]
    );
}
