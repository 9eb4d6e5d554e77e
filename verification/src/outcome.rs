//! What follows from a choice: what is booted, with which key, after which time.

use vstd::prelude::*;
use vstd::utf8::{decode_utf8, encode_utf8, valid_utf8};

use crate::boot::{
    all_labels, all_sources, all_trees, auto_boot, auto_conclusion, boot_report, conclusion,
    default_boot, default_state, first_left, is_last_wait, key_data, leaf_at, leaf_with_path,
    quiet_waits, source_row, source_tree, timeout_of, wait_ms, ConclusionView, ResultView,
};
use crate::devices::{linked_device_is_known, link_name, DiskLink};
use crate::display::{lemma_stands_in_before, stands_at_end, stands_in};
use crate::path::{file_name_of, joined, path_text, same_path, BootPath};
use crate::select::{all_leaves, entry_named};
use crate::session::{after_unlock, SessionState, SideView};
use crate::text::{decimal, decimal_is_read_back, number, utf8_lossy};
use crate::tree::{boot_tree, static_source_view, DirItem};
use crate::treeview::{Row, RowKind};
use crate::types::{
    EntryView, IoFailure, LeafView, SelectionView, Source, SourceView, TreeNode, TreeNodeView,
};

verus! {

// --- Keys ---

/// The key of a source that was unlocked is found, whichever source it is: it is the
/// passphrase, with the name of the first link that points at the device.
pub proof fn key_of_any_source_is_found(
    sources: Seq<SourceView>,
    i: int,
    uuids: Seq<DiskLink>,
    k: int,
    passphrase: Seq<char>,
    name: Seq<u8>,
)
    requires
        0 <= i < sources.len(),
        sources[i].passphrase == Some(passphrase),
        file_name_of(sources[i].device) == Some(name),
        valid_utf8(name),
        0 <= k < uuids.len(),
        uuids[k].target matches Some(target) && file_name_of(target@) matches Some(n) && utf8_lossy(
            n,
        ) == decode_utf8(name),
    ensures
        key_data(sources, i, uuids) matches Some((key, uuid)) && key == passphrase,
        (forall|j: int, other: BootPath|
            0 <= j < k && (#[trigger] uuids[j]).target == Some(other) ==> ((
            #[trigger] file_name_of(other@)) matches Some(m) ==> utf8_lossy(m) != decode_utf8(
                name,
            ))) ==> key_data(sources, i, uuids) == Some((passphrase, utf8_lossy(uuids[k].name@))),
{
    linked_device_is_known(uuids, decode_utf8(name), k);
}

/// There is no key for a source that was not unlocked with a passphrase, nor for a
/// device that no link names.
pub proof fn no_key_without_passphrase(sources: Seq<SourceView>, i: int, uuids: Seq<DiskLink>)
    ensures
        key_data(sources, i, uuids) is Some ==> 0 <= i < sources.len(),
        key_data(sources, i, uuids) matches Some((key, uuid)) ==> sources[i].passphrase == Some(key)
            && (file_name_of(sources[i].device) matches Some(name) && valid_utf8(name)
            && link_name(uuids, decode_utf8(name), 0) == Some(uuid)),
{
}

/// What unlocking a source changes: that source is mounted and keeps the passphrase
/// that was typed; its device and label, and every other source, stay as they are.
pub proof fn unlocking_changes_one_source(
    s: SessionState,
    mount_point: Seq<u8>,
    boot: Option<Result<Vec<DirItem>, IoFailure>>,
    j: int,
)
    requires
        s.is_sound(),
        s.side matches Some(SideView::Passphrase { .. }),
        0 <= j < s.sources.len(),
    ensures
        ({
            let i = s.side->0->Passphrase_source_idx;
            let after = after_unlock(s, Ok(mount_point), boot);
            &&& after.side is None
            &&& after.default == s.default
            &&& after.features == s.features
            &&& after.sources.len() == s.sources.len()
            &&& after.trees.len() == s.trees.len()
            &&& j != i ==> after.sources[j] == s.sources[j] && after.trees[j] == s.trees[j]
            &&& j == i ==> {
                &&& after.sources[j].state is Mounted
                &&& after.sources[j].mount_point == Some(mount_point)
                &&& after.sources[j].passphrase == Some(s.side->0->Passphrase_input)
                &&& after.sources[j].device == s.sources[j].device
                &&& after.sources[j].label == s.sources[j].label
                &&& after.trees[j] == (match boot {
                    Some(listing) => match boot_tree(
                        joined(mount_point, encode_utf8("boot"@)),
                        listing,
                    ) {
                        Ok(nodes) => nodes,
                        Err(_) => Seq::empty(),
                    },
                    None => Seq::empty(),
                })
            }
        }),
{
}

/// After a source was unlocked, its key is handed on with what is booted from it: the
/// passphrase that was typed, whichever source it is.
pub proof fn unlocked_source_hands_its_key_on(
    s: SessionState,
    mount_point: Seq<u8>,
    boot: Option<Result<Vec<DirItem>, IoFailure>>,
    uuids: Seq<DiskLink>,
    k: int,
    name: Seq<u8>,
    leaf_path: Seq<u8>,
    entry: EntryView,
)
    requires
        s.is_sound(),
        s.side matches Some(SideView::Passphrase { .. }),
        file_name_of(s.sources[s.side->0->Passphrase_source_idx].device) == Some(name),
        valid_utf8(name),
        0 <= k < uuids.len(),
        uuids[k].target matches Some(target) && file_name_of(target@) matches Some(n) && utf8_lossy(
            n,
        ) == decode_utf8(name),
    ensures
        ({
            let i = s.side->0->Passphrase_source_idx;
            let after = after_unlock(s, Ok(mount_point), boot);
            &&& key_data(after.sources, i, uuids) matches Some((key, uuid)) && key
                == s.side->0->Passphrase_input
            &&& conclusion(
                ResultView::Boot { leaf_path, entry, source_idx: i },
                false,
                after.sources,
                uuids,
            ) matches ConclusionView::Boot {
                leaf_path: path,
                entry: booted,
                key: Some((key, uuid)),
            } && path == leaf_path && booted == entry && key == s.side->0->Passphrase_input
        }),
{
    let i = s.side->0->Passphrase_source_idx;
    let after = after_unlock(s, Ok(mount_point), boot);
    unlocking_changes_one_source(s, mount_point, boot, i);
    key_of_any_source_is_found(
        after.sources,
        i,
        uuids,
        k,
        s.side->0->Passphrase_input,
        name,
    );
}

// --- What is done once the menu has been left ---

/// Outside of a dry run, what was chosen is what is done: the entry with its leaf and
/// the key of its source, the file, or the rescue shell. A dry run, and leaving the
/// menu, only say something.
pub proof fn choices_are_carried_out(
    dry_run: bool,
    sources: Seq<SourceView>,
    uuids: Seq<DiskLink>,
    leaf_path: Seq<u8>,
    entry: EntryView,
    source_idx: int,
    path: Seq<u8>,
)
    ensures
        conclusion(ResultView::Boot { leaf_path, entry, source_idx }, false, sources, uuids) == (
        ConclusionView::Boot { leaf_path, entry, key: key_data(sources, source_idx, uuids) }),
        conclusion(ResultView::BootFile { path }, false, sources, uuids) == (
        ConclusionView::BootFile { path }),
        conclusion(ResultView::Shell, false, sources, uuids) == ConclusionView::Shell,
        conclusion(ResultView::Quit, dry_run, sources, uuids) is Say,
        conclusion(ResultView::Boot { leaf_path, entry, source_idx }, true, sources, uuids) is Say,
        conclusion(ResultView::BootFile { path }, true, sources, uuids) is Say,
        conclusion(ResultView::Shell, true, sources, uuids) is Say,
        auto_conclusion(true, path, entry) is Say,
        auto_conclusion(false, path, entry) == (ConclusionView::Boot {
            leaf_path: path,
            entry,
            key: None,
        }),
{
}

/// A dry run says what would be booted: the leaf, the kernel, the initrd, the command line
/// and the name of the entry, and whether a key would be handed on.
pub proof fn dry_run_says_what_would_be_booted(
    sources: Seq<SourceView>,
    uuids: Seq<DiskLink>,
    leaf_path: Seq<u8>,
    entry: EntryView,
    source_idx: int,
)
    ensures
        conclusion(
            ResultView::Boot { leaf_path, entry, source_idx },
            true,
            sources,
            uuids,
        ) matches ConclusionView::Say(text) && {
            &&& stands_in(path_text(leaf_path), text)
            &&& stands_in(entry.kernel, text)
            &&& stands_in(entry.initrd, text)
            &&& stands_in(entry.cmdline, text)
            &&& stands_in(entry.name, text)
            &&& text == boot_report(
                leaf_path,
                entry,
                key_data(sources, source_idx, uuids) is Some,
            )
        },
{
    let has_key = key_data(sources, source_idx, uuids) is Some;
    let a = "kexec-menu: would boot:\n  leaf:    "@ + path_text(leaf_path);
    let b = a + "\n  kernel:  "@ + entry.kernel;
    let c = b + "\n  initrd:  "@ + entry.initrd;
    let d = c + "\n  cmdline: "@ + entry.cmdline;
    let f = d + "\n  entry:   "@ + entry.name;
    let last = if has_key {
        "  key:     (handoff enabled)\n"@
    } else {
        Seq::empty()
    };
    stands_at_end("kexec-menu: would boot:\n  leaf:    "@, path_text(leaf_path));
    stands_at_end(a + "\n  kernel:  "@, entry.kernel);
    stands_at_end(b + "\n  initrd:  "@, entry.initrd);
    stands_at_end(c + "\n  cmdline: "@, entry.cmdline);
    stands_at_end(d + "\n  entry:   "@, entry.name);
    lemma_in_longer_text(path_text(leaf_path), a, "\n  kernel:  "@, entry.kernel);
    lemma_in_longer_text(path_text(leaf_path), b, "\n  initrd:  "@, entry.initrd);
    lemma_in_longer_text(entry.kernel, b, "\n  initrd:  "@, entry.initrd);
    lemma_in_longer_text(path_text(leaf_path), c, "\n  cmdline: "@, entry.cmdline);
    lemma_in_longer_text(entry.kernel, c, "\n  cmdline: "@, entry.cmdline);
    lemma_in_longer_text(entry.initrd, c, "\n  cmdline: "@, entry.cmdline);
    lemma_in_longer_text(path_text(leaf_path), d, "\n  entry:   "@, entry.name);
    lemma_in_longer_text(entry.kernel, d, "\n  entry:   "@, entry.name);
    lemma_in_longer_text(entry.initrd, d, "\n  entry:   "@, entry.name);
    lemma_in_longer_text(entry.cmdline, d, "\n  entry:   "@, entry.name);
    lemma_in_longer_text(path_text(leaf_path), f, "\n"@, last);
    lemma_in_longer_text(entry.kernel, f, "\n"@, last);
    lemma_in_longer_text(entry.initrd, f, "\n"@, last);
    lemma_in_longer_text(entry.cmdline, f, "\n"@, last);
    lemma_in_longer_text(entry.name, f, "\n"@, last);
}

proof fn lemma_in_longer_text(part: Seq<char>, text: Seq<char>, a: Seq<char>, b: Seq<char>)
    requires
        stands_in(part, text),
    ensures
        stands_in(part, text + a + b),
{
    lemma_stands_in_before(part, text, a);
    lemma_stands_in_before(part, text + a, b);
}

proof fn lemma_leaf_with_path(s: Seq<LeafView>, path: Seq<u8>, k: int, from: int)
    requires
        0 <= from <= k < s.len(),
        same_path(s[k].path, path),
        forall|j: int| from <= j < k ==> !same_path((#[trigger] s[j]).path, path),
    ensures
        leaf_with_path(s, path, from) == Some(s[k]),
    decreases k - from,
{
    if from < k {
        assert(!same_path(s[from].path, path));
        lemma_leaf_with_path(s, path, k, from + 1);
    }
}

proof fn lemma_no_leaf_with_path(s: Seq<LeafView>, path: Seq<u8>, from: int)
    requires
        0 <= from,
        forall|j: int| from <= j < s.len() ==> !same_path((#[trigger] s[j]).path, path),
    ensures
        leaf_with_path(s, path, from) is None,
    decreases s.len() - from,
{
    if from < s.len() {
        assert(!same_path(s[from].path, path));
        lemma_no_leaf_with_path(s, path, from + 1);
    }
}

proof fn lemma_entry_named(entries: Seq<EntryView>, name: Seq<char>, k: int, from: int)
    requires
        0 <= from <= k < entries.len(),
        entries[k].name == name,
        forall|j: int| from <= j < k ==> (#[trigger] entries[j]).name != name,
    ensures
        entry_named(entries, name, from) == Some(entries[k]),
    decreases k - from,
{
    if from < k {
        assert(entries[from].name != name);
        lemma_entry_named(entries, name, k, from + 1);
    }
}

proof fn lemma_no_entry_named(entries: Seq<EntryView>, name: Seq<char>, from: int)
    requires
        0 <= from,
        forall|j: int| from <= j < entries.len() ==> (#[trigger] entries[j]).name != name,
    ensures
        entry_named(entries, name, from) is None,
    decreases entries.len() - from,
{
    if from < entries.len() {
        assert(entries[from].name != name);
        lemma_no_entry_named(entries, name, from + 1);
    }
}

/// What is booted without asking is the first entry of the default's name in the
/// first leaf with the default's path, in whichever source it is.
pub proof fn default_is_booted_without_asking(
    trees: Seq<Seq<TreeNodeView>>,
    sel: SelectionView,
    k: int,
    j: int,
)
    requires
        0 <= k < all_leaves(trees).len(),
        same_path(all_leaves(trees)[k].path, sel.leaf_path),
        forall|i: int|
            0 <= i < k ==> !same_path((#[trigger] all_leaves(trees)[i]).path, sel.leaf_path),
        0 <= j < all_leaves(trees)[k].entries.len(),
        all_leaves(trees)[k].entries[j].name == sel.entry_name,
        forall|i: int|
            0 <= i < j ==> (#[trigger] all_leaves(trees)[k].entries[i]).name != sel.entry_name,
    ensures
        auto_boot(trees, Some(sel)) == Ok::<(Seq<u8>, EntryView), Seq<char>>(
            (sel.leaf_path, all_leaves(trees)[k].entries[j]),
        ),
{
    lemma_leaf_with_path(all_leaves(trees), sel.leaf_path, k, 0);
    lemma_entry_named(all_leaves(trees)[k].entries, sel.entry_name, j, 0);
}

/// Without a default, without a leaf of its path, or without an entry of its name
/// in that leaf, nothing is booted.
pub proof fn missing_default_is_not_booted(
    trees: Seq<Seq<TreeNodeView>>,
    sel: SelectionView,
    k: int,
)
    ensures
        auto_boot(trees, None) is Err,
        (forall|i: int|
            0 <= i < all_leaves(trees).len() ==> !same_path(
                (#[trigger] all_leaves(trees)[i]).path,
                sel.leaf_path,
            )) ==> auto_boot(trees, Some(sel)) is Err,
        0 <= k < all_leaves(trees).len() && same_path(all_leaves(trees)[k].path, sel.leaf_path) && (
        forall|i: int|
            0 <= i < k ==> !same_path((#[trigger] all_leaves(trees)[i]).path, sel.leaf_path)) && (
        forall|i: int|
            0 <= i < all_leaves(trees)[k].entries.len() ==> (#[trigger] all_leaves(
                trees,
            )[k].entries[i]).name != sel.entry_name) ==> auto_boot(trees, Some(sel)) is Err,
{
    let all = all_leaves(trees);
    if forall|i: int|
        0 <= i < all.len() ==> !same_path((#[trigger] all[i]).path, sel.leaf_path) {
        lemma_no_leaf_with_path(all, sel.leaf_path, 0);
    }
    if 0 <= k < all.len() && same_path(all[k].path, sel.leaf_path) && (forall|i: int|
        0 <= i < k ==> !same_path((#[trigger] all[i]).path, sel.leaf_path)) && (forall|i: int|
        0 <= i < all[k].entries.len() ==> (#[trigger] all[k].entries[i]).name != sel.entry_name) {
        lemma_leaf_with_path(all, sel.leaf_path, k, 0);
        lemma_no_entry_named(all[k].entries, sel.entry_name, 0);
    }
}

// --- The timeout ---

/// The EFI variable decides about the timeout, whatever the environment and the build
/// say; then the environment; then the build; and without any of them it is five
/// seconds. A text that is no number does not decide, and the largest number means
/// that there is no timeout.
pub proof fn timeout_layers_have_their_order(
    t: u16,
    env: Option<Seq<char>>,
    build: Option<Seq<char>>,
    bad: Seq<char>,
)
    ensures
        t < 0xffff ==> timeout_of(Some(t), env, build) == Some(t as int),
        timeout_of(Some(0xffff), env, build) is None,
        t < 0xffff ==> timeout_of(None, Some(decimal(t as nat)), build) == Some(t as int),
        timeout_of(None, Some(decimal(0xffff)), build) is None,
        number(bad) is None ==> timeout_of(None, Some(bad), build) == timeout_of(None, None, build),
        number(bad) matches Some(n) && n > 0xffff ==> timeout_of(None, Some(bad), build)
            == timeout_of(None, None, build),
        timeout_of(None, None, build) == timeout_of(None, build, None),
        timeout_of(None, None, None) == Some(5int),
{
    decimal_is_read_back(t as nat);
    decimal_is_read_back(0xffff);
}

proof fn lemma_waits(total: int, left: int)
    requires
        total > 0,
        left >= 1,
    ensures
        quiet_waits(total, left) == left,
    decreases left,
{
    if left > 1 {
        lemma_waits(total, left - 1);
    }
}

/// A countdown of no seconds is over after two short waits; any other shows one second
/// less after each wait of a second, and is over after the last.
pub proof fn countdown_waits_are_counted(total: int, left: int)
    requires
        0 <= total,
        1 <= left,
    ensures
        total > 0 ==> quiet_waits(total, left) == left && wait_ms(total) == 1000 && first_left(
            total,
        ) == total,
        quiet_waits(0, first_left(0)) * wait_ms(0) == 200,
        total > 0 && left > 1 ==> !is_last_wait(total, left),
        total > 0 ==> is_last_wait(total, 1),
{
    if total > 0 {
        lemma_waits(total, left);
    }
    reveal_with_fuel(quiet_waits, 3);
}

// --- What the menu is prepared with ---

/// A source that is mounted has the boot tree below the boot directory of its mount
/// point; what is not mounted, or cannot be walked, has an empty one.
pub proof fn mounted_sources_are_walked(
    src: SourceView,
    boot: Option<Result<Vec<DirItem>, IoFailure>>,
    mount_point: Seq<u8>,
    listing: Result<Vec<DirItem>, IoFailure>,
)
    ensures
        src.state is Mounted && src.mount_point == Some(mount_point) && boot == Some(listing) ==> (
        match boot_tree(joined(mount_point, encode_utf8("boot"@)), listing) {
            Ok(nodes) => source_tree(src, boot) == nodes,
            Err(_) => source_tree(src, boot).len() == 0,
        }),
        !(src.state is Mounted) || src.mount_point is None || boot is None ==> source_tree(
            src,
            boot,
        ).len() == 0,
{
}

/// The menu has the sources that were found and behind them the static ones, each
/// with its own label and tree.
pub proof fn menu_has_every_source(
    found: Seq<Source>,
    boots: Seq<Option<Result<Vec<DirItem>, IoFailure>>>,
    statics: Seq<(Source, String, Vec<TreeNode>)>,
    i: int,
)
    requires
        boots.len() == found.len(),
    ensures
        ({
            let n = found.len() as int;
            let sources = all_sources(found, statics);
            let trees = all_trees(found, boots, statics);
            let labels = all_labels(found, statics);
            &&& sources.len() == n + statics.len()
            &&& trees.len() == sources.len()
            &&& labels.len() == sources.len()
            &&& 0 <= i < n ==> sources[i] == found[i]@ && trees[i] == source_tree(
                found[i]@,
                boots[i],
            ) && labels[i] == found[i]@.label
            &&& 0 <= i < statics.len() ==> sources[n + i] == statics[i].0@ && labels[n + i]
                == statics[i].1@ && trees[n + i] == static_source_view(statics[i]).tree
        }),
{
}

// --- The default entry in the view ---

proof fn lemma_leaf_at(rows: Seq<Row>, r: int, at: int)
    requires
        0 <= r <= at < rows.len(),
        rows[r].kind is Leaf,
        forall|k: int| r < k <= at ==> !((#[trigger] rows[k]).kind is Leaf),
    ensures
        leaf_at(rows, at) == Some(rows[r].kind->Leaf_path),
    decreases at - r,
{
    if r < at {
        assert(!(rows[at].kind is Leaf));
        lemma_leaf_at(rows, r, at - 1);
    }
}

/// A row belongs to the leaf of the nearest leaf row above it.
pub proof fn row_belongs_to_leaf_above(rows: Seq<Row>, r: int, at: int)
    requires
        0 <= r <= at < rows.len(),
        rows[r].kind is Leaf,
        forall|k: int| r < k <= at ==> !((#[trigger] rows[k]).kind is Leaf),
    ensures
        leaf_at(rows, at) == Some(rows[r].kind->Leaf_path),
{
    lemma_leaf_at(rows, r, at);
}

proof fn lemma_source_row(rows: Seq<Row>, source_idx: int, r: int, from: int)
    requires
        0 <= from <= r < rows.len(),
        rows[r].kind matches RowKind::Source { idx, .. } && idx == source_idx,
        forall|k: int|
            from <= k < r ==> ((#[trigger] rows[k]).kind matches RowKind::Source { idx, .. } ==> idx
                != source_idx),
    ensures
        source_row(rows, source_idx, from) == Some(rows[r].kind->Source_state),
    decreases r - from,
{
    if from < r {
        assert(rows[from].kind matches RowKind::Source { idx, .. } ==> idx != source_idx);
        lemma_source_row(rows, source_idx, r, from + 1);
    }
}

proof fn lemma_default_state(rows: Seq<Row>, k: int, from: int)
    requires
        0 <= from <= k < rows.len(),
        rows[k].is_default,
        rows[k].kind matches RowKind::Entry { source_idx, .. } && source_row(
            rows,
            source_idx,
            0,
        ) is Some,
        forall|j: int|
            from <= j < k ==> !((#[trigger] rows[j]).is_default && rows[j].kind is Entry),
    ensures
        default_state(rows, from) == source_row(rows, rows[k].kind->Entry_source_idx, 0),
    decreases k - from,
{
    if from < k {
        assert(!(rows[from].is_default && rows[from].kind is Entry));
        lemma_default_state(rows, k, from + 1);
    }
}

/// Whether the default entry is locked is told by the row of its source.
pub proof fn default_has_the_state_of_its_source(rows: Seq<Row>, k: int, r: int)
    requires
        0 <= k < rows.len(),
        rows[k].is_default,
        rows[k].kind is Entry,
        forall|j: int| 0 <= j < k ==> !((#[trigger] rows[j]).is_default && rows[j].kind is Entry),
        0 <= r < rows.len(),
        rows[r].kind matches RowKind::Source { idx, .. } && idx == rows[k].kind->Entry_source_idx,
        forall|j: int|
            0 <= j < r ==> ((#[trigger] rows[j]).kind matches RowKind::Source { idx, .. } ==> idx
                != rows[k].kind->Entry_source_idx),
    ensures
        default_state(rows, 0) == Some(rows[r].kind->Source_state),
{
    lemma_source_row(rows, rows[k].kind->Entry_source_idx, r, 0);
    lemma_default_state(rows, k, 0);
}

proof fn lemma_default_boot(rows: Seq<Row>, k: int, from: int)
    requires
        0 <= from <= k < rows.len(),
        rows[k].is_default,
        rows[k].kind is Entry,
        leaf_at(rows, k) is Some,
        forall|j: int|
            from <= j < k ==> !((#[trigger] rows[j]).is_default && rows[j].kind is Entry),
    ensures
        default_boot(rows, from) == Some(
            ResultView::Boot {
                leaf_path: leaf_at(rows, k)->0,
                entry: rows[k].kind->Entry_entry,
                source_idx: rows[k].kind->Entry_source_idx,
            },
        ),
    decreases k - from,
{
    if from < k {
        assert(!(rows[from].is_default && rows[from].kind is Entry));
        lemma_default_boot(rows, k, from + 1);
    }
}

/// What is booted when the time is over is the entry of the first default row, from
/// the leaf of the nearest leaf row above it.
pub proof fn first_default_row_is_booted(rows: Seq<Row>, k: int, r: int)
    requires
        0 <= r < k < rows.len(),
        rows[k].is_default,
        rows[k].kind is Entry,
        forall|j: int| 0 <= j < k ==> !((#[trigger] rows[j]).is_default && rows[j].kind is Entry),
        rows[r].kind is Leaf,
        forall|j: int| r < j <= k ==> !((#[trigger] rows[j]).kind is Leaf),
    ensures
        default_boot(rows, 0) == Some(
            ResultView::Boot {
                leaf_path: rows[r].kind->Leaf_path,
                entry: rows[k].kind->Entry_entry,
                source_idx: rows[k].kind->Entry_source_idx,
            },
        ),
{
    lemma_leaf_at(rows, r, k);
    lemma_default_boot(rows, k, 0);
}

} // verus!
