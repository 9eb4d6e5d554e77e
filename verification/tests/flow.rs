//! From the arguments to what is booted.

use kexec_menu::boot::{
    after_boot, assemble, boot_default, boot_dir_of, boot_directory, build_source_tree, conclude,
    default_is_locked, find_entry_leaf_path, find_leaf, find_leaf_in_nodes, parse_args, prepare,
    report_boot, report_boot_file, resolve_timeout, run_auto_default, source_key_data, Aftermath,
    Conclusion, Countdown, CountdownStep, Options, TuiResult,
};
use kexec_menu::devices::DiskLink;
use kexec_menu::kexec::efi_selection_file;
use kexec_menu::path::BootPath;
use kexec_menu::select::resolve_default;
use kexec_menu::tree::{load_static_entries, DirContent, DirItem};
use kexec_menu::treeview::TreeView;
use kexec_menu::types::{
    BootSelection, Entry, Error, Features, IoFailure, Leaf, Source, SourceState, TreeNode,
};

const ALL: Features = Features { full_fs_view: true, rescue_shell: true, disk_whitelist: true };

fn entry(name: &str) -> Entry {
    Entry {
        name: name.into(),
        kernel: format!("{name}.efi"),
        initrd: "initrd".into(),
        cmdline: "quiet".into(),
    }
}

fn leaf(path: &str, names: &[&str], mtime: u64) -> TreeNode {
    let entries = names.iter().map(|n| entry(n)).collect();
    TreeNode::Leaf(Leaf { path: BootPath::from_text(path), entries, mtime })
}

fn source(label: &str, state: SourceState, mount: Option<&str>) -> Source {
    Source {
        label: label.into(),
        device: BootPath::from_text(&format!("/dev/{label}")),
        state,
        mount_point: mount.map(BootPath::from_text),
        passphrase: None,
    }
}

fn selection(path: &str, name: &str) -> BootSelection {
    BootSelection { leaf_path: BootPath::from_text(path), entry_name: name.into() }
}

fn complaint<T: std::fmt::Debug>(r: Result<T, Error>) -> String {
    match r {
        Err(Error::Parse(m)) => m,
        other => panic!("{other:?}"),
    }
}

fn words(args: &[&str]) -> Vec<String> {
    args.iter().map(|a| a.to_string()).collect()
}

#[test]
fn arguments_are_found_anywhere() {
    let none = Options { help: false, dry_run: false, auto_default: false };
    assert_eq!(parse_args(&words(&["kexec-menu"])), none);
    assert_eq!(parse_args(&words(&["kexec-menu", "--nonsense", "-dry-run"])), none);
    assert_eq!(parse_args(&words(&["x", "-h"])), Options { help: true, ..none });
    assert_eq!(parse_args(&words(&["--help"])), Options { help: true, ..none });
    let both = parse_args(&words(&["x", "--auto-default", "--dry-run"]));
    assert_eq!(both, Options { dry_run: true, auto_default: true, help: false });
}

#[test]
fn timeout_comes_from_the_first_layer_that_has_one() {
    let text = |s: &str| Some(s.to_string());
    assert_eq!(resolve_timeout(Some(3), &text("7"), &text("9")), Some(3));
    assert_eq!(resolve_timeout(Some(65535), &text("7"), &text("9")), None);
    assert_eq!(resolve_timeout(None, &text("7"), &text("9")), Some(7));
    assert_eq!(resolve_timeout(None, &text("65535"), &text("9")), None);
    assert_eq!(resolve_timeout(None, &text("soon"), &text("9")), Some(9));
    assert_eq!(resolve_timeout(None, &text("65536"), &text("65535")), None);
    assert_eq!(resolve_timeout(None, &None, &text("x")), Some(5));
    assert_eq!(resolve_timeout(None, &None, &None), Some(5));
    assert_eq!(resolve_timeout(Some(0), &None, &None), Some(0));
}

#[test]
fn countdown_needs_a_timeout_and_an_open_default() {
    assert!(Countdown::start(None, true, false).is_none());
    assert!(Countdown::start(Some(3), false, false).is_none());
    assert!(Countdown::start(Some(3), true, true).is_none());
}

#[test]
fn countdown_runs_down() {
    let mut c = Countdown::start(Some(2), true, false).unwrap();
    assert_eq!(c.poll_ms(), 1000);
    let mut shown = Vec::new();
    loop {
        shown.push(c.shown_secs());
        match c.step(Some(false)) {
            CountdownStep::Continue => {}
            CountdownStep::Expire => break,
            CountdownStep::Cancel => panic!("cancelled"),
        }
    }
    assert_eq!(shown, [2, 1]);
}

#[test]
fn countdown_lasts_as_long_as_the_timeout() {
    for secs in [1, 2, 5, 300] {
        let mut c = Countdown::start(Some(secs), true, false).unwrap();
        let mut waited = c.poll_ms();
        while c.step(Some(false)) == CountdownStep::Continue {
            waited += c.poll_ms();
        }
        assert_eq!(waited, i32::from(secs) * 1000);
    }
}

#[test]
fn countdown_of_zero_waits_twice_and_shortly() {
    let mut c = Countdown::start(Some(0), true, false).unwrap();
    assert_eq!((c.poll_ms(), c.shown_secs()), (100, 0));
    assert_eq!(c.step(Some(false)), CountdownStep::Continue);
    assert_eq!(c.shown_secs(), 0);
    assert_eq!(c.step(Some(false)), CountdownStep::Expire);
}

#[test]
fn countdown_ends_with_a_key_or_a_failure() {
    let mut c = Countdown::start(Some(9), true, false).unwrap();
    assert_eq!(c.step(Some(true)), CountdownStep::Cancel);
    assert_eq!(c.step(None), CountdownStep::Cancel);
    assert_eq!(c.shown_secs(), 9);
}

fn two_trees() -> Vec<(String, Vec<TreeNode>)> {
    let nested = TreeNode::Dir {
        name: "nixos".into(),
        children: vec![leaf("/b/nixos/g1", &["old"], 5), leaf("/b/nixos/g2", &["new", "debug"], 9)],
    };
    vec![("a".into(), vec![leaf("/a/one", &["x"], 3)]), ("b".into(), vec![nested])]
}

fn two_sources(state: SourceState) -> Vec<Source> {
    vec![source("a", SourceState::Mounted, Some("/a")), source("b", state, Some("/b"))]
}

#[test]
fn leaves_are_found_by_path() {
    let trees = two_trees();
    let found = find_leaf(&trees, &BootPath::from_text("/b//nixos/g2/")).unwrap();
    assert_eq!(found.mtime, 9);
    assert!(find_leaf(&trees, &BootPath::from_text("/b/nixos")).is_none());
    assert!(find_leaf_in_nodes(&trees[0].1, &BootPath::from_text("/b/nixos/g2")).is_none());
}

#[test]
fn automatic_boot_takes_the_default_entry() {
    let trees = two_trees();
    let default = resolve_default(&trees, Some(&selection("/b/nixos/g0", "debug")));
    match run_auto_default(false, &trees, default.as_ref()).unwrap() {
        Conclusion::Boot { leaf_path, entry, key } => {
            assert_eq!((leaf_path.to_text().as_str(), entry.name.as_str()), ("/b/nixos/g2", "debug"));
            assert_eq!((entry.kernel.as_str(), key), ("debug.efi", None));
        }
        other => panic!("{other:?}"),
    }
}

#[test]
fn automatic_dry_run_only_reports() {
    let trees = two_trees();
    let told = run_auto_default(true, &trees, Some(&selection("/b/nixos/g2", "new"))).unwrap();
    let expected = report_boot(&BootPath::from_text("/b/nixos/g2"), &entry("new"), false);
    assert_eq!(said(told), expected);
}

#[test]
fn automatic_boot_says_what_is_missing() {
    let trees = two_trees();
    for dry_run in [false, true] {
        assert_eq!(complaint(run_auto_default(dry_run, &trees, None)), "no default entry found");
        let gone = run_auto_default(dry_run, &trees, Some(&selection("/b/nixos/g7", "new")));
        assert_eq!(complaint(gone), "default leaf not found in tree");
        let unknown = run_auto_default(dry_run, &trees, Some(&selection("/b/nixos/g2", "other")));
        assert_eq!(complaint(unknown), "default entry not found in leaf");
    }
}

#[test]
fn a_failed_boot_leads_to_the_shell_if_there_is_one() {
    let failed = || Err(Error::Parse("no memory".into()));
    let bare = Features { rescue_shell: false, ..ALL };
    match after_boot(failed(), false, ALL) {
        Aftermath::Shell(text) => assert_eq!(text, "kexec-menu: kexec failed: no memory\n"),
        other => panic!("{other:?}"),
    }
    for after in [after_boot(failed(), false, bare), after_boot(failed(), true, ALL)] {
        match after {
            Aftermath::Fail(e) => assert_eq!(e.to_text(), "no memory"),
            other => panic!("{other:?}"),
        }
    }
    assert!(matches!(after_boot(Ok(()), false, ALL), Aftermath::Done));
}

#[test]
fn the_whitelist_counts_where_it_is_a_feature() {
    let list = Some("sda*".to_string());
    assert_eq!(ALL.whitelist(list.clone()), list);
    assert_eq!(Features { disk_whitelist: false, ..ALL }.whitelist(list), None);
}

#[test]
fn boot_directory_of_a_mount_point() {
    assert_eq!(boot_dir_of(&BootPath::from_text("/m/")).to_text(), "/m/boot");
}

#[test]
fn countdown_boots_the_default_of_the_view() {
    let default = selection("/b/nixos/g2", "debug");
    let view = TreeView::build(&two_sources(SourceState::Mounted), &two_trees(), Some(&default));
    assert!(!default_is_locked(&view));
    match boot_default(&view) {
        Some(TuiResult::Boot { leaf_path, entry, source_idx }) => {
            assert_eq!((leaf_path.to_text().as_str(), entry.name.as_str()), ("/b/nixos/g2", "debug"));
            assert_eq!(source_idx, 1);
        }
        other => panic!("{other:?}"),
    }
    assert_eq!(find_entry_leaf_path(&view).unwrap().to_text(), "/b/nixos/g2");
}

#[test]
fn nothing_is_booted_without_a_default() {
    let view = TreeView::build(&two_sources(SourceState::Mounted), &two_trees(), None);
    assert!(boot_default(&view).is_none());
    assert!(!default_is_locked(&view));
    assert!(find_entry_leaf_path(&view).is_none());
}

#[test]
fn boot_trees_are_looked_for_on_mounted_sources() {
    let dir = |s: &Source| boot_directory(s).map(|p| p.to_text());
    assert_eq!(dir(&source("a", SourceState::Mounted, Some("/m"))), Some("/m/boot".into()));
    assert_eq!(dir(&source("a", SourceState::Mounted, None)), None);
    assert_eq!(dir(&source("a", SourceState::Encrypted, Some("/m"))), None);
    assert_eq!(dir(&source("a", SourceState::Static, Some("/m"))), None);
}

fn boot_listing() -> Option<Result<Vec<DirItem>, IoFailure>> {
    let json = r#"[{"name":"e","kernel":"k","initrd":"i","cmdline":"c"}]"#;
    let content = DirContent::Leaf { json: Ok(json.into()), mtime: Ok(4) };
    Some(Ok(vec![DirItem { name: b"g1".to_vec(), content }]))
}

#[test]
fn trees_that_cannot_be_walked_are_empty() {
    let src = source("a", SourceState::Mounted, Some("/m"));
    let (label, nodes) = build_source_tree(&src, &boot_listing());
    assert_eq!((label.as_str(), nodes.len()), ("a", 1));
    let failure = IoFailure { code: Some(5), message: "I/O error".into() };
    assert!(build_source_tree(&src, &Some(Err(failure))).1.is_empty());
    assert!(build_source_tree(&src, &None).1.is_empty());
    let locked = source("a", SourceState::Encrypted, Some("/m"));
    assert!(build_source_tree(&locked, &boot_listing()).1.is_empty());
}

fn statics() -> Vec<(Source, String, Vec<TreeNode>)> {
    let json = r#"[{"name":"Memtest","dir":"/static","kernel":"m","initrd":"","cmdline":""}]"#;
    load_static_entries(&Ok(Some(json.into()))).unwrap()
}

#[test]
fn static_entries_follow_what_was_found() {
    let found = vec![source("a", SourceState::Mounted, Some("/m")), source("b", SourceState::Encrypted, None)];
    let (sources, trees) = assemble(found, &vec![boot_listing(), None], statics());
    let labels: Vec<&str> = sources.iter().map(|s| s.label.as_str()).collect();
    assert_eq!(labels, ["a", "b", "Memtest"]);
    let sizes: Vec<(&str, usize)> = trees.iter().map(|t| (t.0.as_str(), t.1.len())).collect();
    assert_eq!(sizes, [("a", 1), ("b", 0), ("Memtest", 1)]);
}

#[test]
fn menu_is_prepared_with_the_remembered_default() {
    let file = efi_selection_file(&selection("/m/boot/g0", "e"));
    let found = vec![source("a", SourceState::Mounted, Some("/m"))];
    let p = prepare(found, &vec![boot_listing()], statics(), Some(&file)).unwrap();
    assert_eq!(p.default, Some(selection("/m/boot/g1", "e")));
    assert_eq!((p.sources.len(), p.trees.len()), (2, 2));
    let p = prepare(vec![], &vec![], statics(), None).unwrap();
    assert_eq!(p.default, Some(selection("/static", "Memtest")));
    assert_eq!(complaint(prepare(vec![], &vec![], vec![], Some(&file))), "no boot sources found");
}

fn uuids() -> Vec<DiskLink> {
    vec![DiskLink { name: b"1234-ABCD".to_vec(), target: Some(BootPath::from_text("../../b")) }]
}

fn unlocked_sources() -> Vec<Source> {
    let mut sources = two_sources(SourceState::Mounted);
    sources[1].passphrase = Some("pw".into());
    sources
}

#[test]
fn keys_are_handed_on_from_unlocked_sources_only() {
    let sources = unlocked_sources();
    assert_eq!(source_key_data(&sources, 1, &uuids()), Some(("pw".into(), "1234-ABCD".into())));
    assert_eq!(source_key_data(&sources, 0, &uuids()), None);
    assert_eq!(source_key_data(&sources, 2, &uuids()), None);
    assert_eq!(source_key_data(&sources, 1, &[]), None);
    let mut odd = unlocked_sources();
    odd[1].device = BootPath::from_bytes(b"/dev/b\xff");
    assert_eq!(source_key_data(&odd, 1, &uuids()), None);
    odd[1].device = BootPath::from_text("/");
    assert_eq!(source_key_data(&odd, 1, &uuids()), None);
}

const REPORT: &str = "kexec-menu: would boot:\n  leaf:    /b/g\n  kernel:  new.efi\n  initrd:  initrd\n  \
    cmdline: quiet\n  entry:   new\n";

#[test]
fn dry_runs_report() {
    let path = BootPath::from_text("/b/g");
    assert_eq!(report_boot(&path, &entry("new"), false), REPORT);
    assert_eq!(report_boot(&path, &entry("new"), true), format!("{REPORT}  key:     (handoff enabled)\n"));
    assert_eq!(report_boot_file(&path), "kexec-menu: would boot file:\n  path: /b/g\n");
}

fn said(c: Conclusion) -> String {
    match c {
        Conclusion::Say(s) => s,
        other => panic!("{other:?}"),
    }
}

fn chosen(source_idx: usize) -> TuiResult {
    TuiResult::Boot { leaf_path: BootPath::from_text("/b/g"), entry: entry("new"), source_idx }
}

#[test]
fn conclusions_of_a_dry_run() {
    let sources = unlocked_sources();
    let with_key = conclude(chosen(1), true, ALL, &sources, &uuids());
    assert_eq!(said(with_key), format!("{REPORT}  key:     (handoff enabled)\n"));
    assert_eq!(said(conclude(chosen(0), true, ALL, &sources, &uuids())), REPORT);
    let file = TuiResult::BootFile { path: BootPath::from_text("/f") };
    assert_eq!(said(conclude(file, true, ALL, &sources, &[])), "kexec-menu: would boot file:\n  path: /f\n");
    let shell = conclude(TuiResult::Shell, true, ALL, &sources, &[]);
    assert_eq!(said(shell), "kexec-menu: would drop to rescue shell\n");
    assert_eq!(said(conclude(TuiResult::Quit, true, ALL, &sources, &[])), "kexec-menu: user quit\n");
}

#[test]
fn conclusions_of_a_real_run() {
    let sources = unlocked_sources();
    match conclude(chosen(1), false, ALL, &sources, &uuids()) {
        Conclusion::Boot { leaf_path, entry, key } => {
            assert_eq!((leaf_path.to_text().as_str(), entry.name.as_str()), ("/b/g", "new"));
            assert_eq!(key, Some(("pw".into(), "1234-ABCD".into())));
        }
        other => panic!("{other:?}"),
    }
    let file = TuiResult::BootFile { path: BootPath::from_text("/f") };
    match conclude(file, false, ALL, &sources, &[]) {
        Conclusion::BootFile { path } => assert_eq!(path.to_text(), "/f"),
        other => panic!("{other:?}"),
    }
    assert!(matches!(conclude(TuiResult::Shell, false, ALL, &sources, &[]), Conclusion::Shell));
    assert_eq!(said(conclude(TuiResult::Quit, false, ALL, &sources, &[])), "kexec-menu: user quit\n");
}
