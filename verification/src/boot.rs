//! What the program does apart from its screens: how its data is put together,
//! the autoboot countdown, and the choice of what to boot.

use vstd::prelude::*;
use vstd::utf8::{encode_utf8, valid_utf8};

use crate::devices::{link_name, read_device_uuid, DiskLink};
use crate::json::complains;
use crate::kexec::{
    can_be_stored, efi_file, opt_bytes, read_efi_selection, remembered, stored_selection_read_back,
};
use crate::path::{file_name_of, joined, path_text, same_path, BootPath};
use crate::select::{
    all_leaves, default_selection, entry_named, leaves, node_leaves, resolve_default,
};
use crate::text::{bounded_number, opt_text, parse_number, same_text, text_from_utf8, utf8_text};
use crate::tree::{boot_tree, static_source_view, walk_boot_tree, DirItem, StaticSource};
use crate::treeview::{built, NodeKind, NodeSourceState, Row, RowKind, ShownState, TreeView};
use crate::types::{
    node_view, node_views, node_views_step, opt_path, opt_selection, opt_selection_ref,
    source_views, tree_labels, tree_views, BootSelection, Entry, EntryView, Error, ErrorView,
    Features, IoFailure, Leaf, LeafView, SelectionView, Source, SourceState, SourceView, TreeNode,
    TreeNodeView,
};

verus! {

// --- Options ---

/// What the program was asked to do.
#[derive(Debug, Clone, Copy, PartialEq, Eq, Structural)]
pub struct Options {
    pub help: bool,
    pub dry_run: bool,
    pub auto_default: bool,
}

/// Whether a word is among the arguments.
pub open spec fn has_arg(args: Seq<String>, word: Seq<char>) -> bool {
    exists|i: int| 0 <= i < args.len() && (#[trigger] args[i])@ == word
}

fn find_arg(args: &[String], word: &str) -> (r: bool)
    ensures
        r == has_arg(args@, word@),
{
    let mut i: usize = 0;
    while i < args.len()
        invariant
            i <= args@.len(),
            forall|k: int| 0 <= k < i ==> (#[trigger] args@[k])@ != word@,
        decreases args@.len() - i,
    {
        if same_text(args[i].as_str(), word) {
            assert(args@[i as int]@ == word@);
            return true;
        }
        i = i + 1;
    }
    false
}

/// What the arguments ask for.
pub open spec fn options_of(args: Seq<String>) -> Options {
    Options {
        help: has_arg(args, "--help"@) || has_arg(args, "-h"@),
        dry_run: has_arg(args, "--dry-run"@),
        auto_default: has_arg(args, "--auto-default"@),
    }
}

proof fn lemma_has_arg(a: Seq<String>, b: Seq<String>, word: Seq<char>)
    ensures
        has_arg(a + b, word) <==> has_arg(a, word) || has_arg(b, word),
{
    if has_arg(a, word) {
        let i = choose|i: int| 0 <= i < a.len() && (#[trigger] a[i])@ == word;
        assert((a + b)[i]@ == word);
    }
    if has_arg(b, word) {
        let i = choose|i: int| 0 <= i < b.len() && (#[trigger] b[i])@ == word;
        assert((a + b)[a.len() + i]@ == word);
    }
    if has_arg(a + b, word) {
        let i = choose|i: int| 0 <= i < (a + b).len() && (#[trigger] (a + b)[i])@ == word;
        if i < a.len() {
            assert(a[i]@ == word);
        } else {
            assert(b[i - a.len()]@ == word);
        }
    }
}

/// Each argument counts for itself, wherever it stands; what is not known asks for
/// nothing.
pub proof fn arguments_count_for_themselves(a: Seq<String>, b: Seq<String>, arg: String)
    ensures
        options_of(a + b).help == (options_of(a).help || options_of(b).help),
        options_of(a + b).dry_run == (options_of(a).dry_run || options_of(b).dry_run),
        options_of(a + b).auto_default == (options_of(a).auto_default
            || options_of(b).auto_default),
        options_of(seq![arg]).help <==> arg@ == "--help"@ || arg@ == "-h"@,
        options_of(seq![arg]).dry_run <==> arg@ == "--dry-run"@,
        options_of(seq![arg]).auto_default <==> arg@ == "--auto-default"@,
        options_of(Seq::empty()) == (Options { help: false, dry_run: false, auto_default: false }),
{
    lemma_has_arg(a, b, "--help"@);
    lemma_has_arg(a, b, "-h"@);
    lemma_has_arg(a, b, "--dry-run"@);
    lemma_has_arg(a, b, "--auto-default"@);
    assert(seq![arg][0] == arg);
}

/// Reads the arguments. What is not known is passed over.
pub fn parse_args(args: &[String]) -> (r: Options)
    ensures
        r == options_of(args@),
{
    Options {
        help: find_arg(args, "--help") || find_arg(args, "-h"),
        dry_run: find_arg(args, "--dry-run"),
        auto_default: find_arg(args, "--auto-default"),
    }
}

// --- Autoboot timeout ---

/// A number of seconds; the largest one means that there is no timeout.
pub open spec fn finite(t: int) -> Option<int> {
    if t == u16::MAX {
        None
    } else {
        Some(t)
    }
}

/// The number of seconds that a text tells.
pub open spec fn seconds(text: Option<Seq<char>>) -> Option<int> {
    match text {
        Some(s) => match bounded_number(s, u16::MAX as nat) {
            Some(n) => Some(n as int),
            None => None,
        },
        None => None,
    }
}

/// The timeout: that of the EFI variable, else that of the environment, else the
/// one the program was built with, else five seconds.
pub open spec fn timeout_of(
    efi: Option<u16>,
    env: Option<Seq<char>>,
    build: Option<Seq<char>>,
) -> Option<int> {
    match efi {
        Some(t) => finite(t as int),
        None => match seconds(env) {
            Some(t) => finite(t),
            None => match seconds(build) {
                Some(t) => finite(t),
                None => Some(5int),
            },
        },
    }
}

/// The view of an optional number.
pub open spec fn opt_secs(t: Option<u16>) -> Option<int> {
    match t {
        Some(x) => Some(x as int),
        None => None,
    }
}

fn parse_seconds(text: &Option<String>) -> (r: Option<u16>)
    ensures
        opt_secs(r) == seconds(opt_text(*text)),
{
    match text {
        Some(s) => match parse_number(s.as_str(), u16::MAX as u64) {
            Some(n) => Some(n as u16),
            None => None,
        },
        None => None,
    }
}

/// Resolve autoboot timeout from config layers (EFI var > env > build-time default).
/// Returns None for "no timeout" (infinite wait), Some(secs) otherwise.
pub fn resolve_timeout(efi: Option<u16>, env: &Option<String>, build: &Option<String>) -> (r:
    Option<u16>)
    ensures
        opt_secs(r) == timeout_of(efi, opt_text(*env), opt_text(*build)),
{
    let t: u16 = match efi {
        Some(t) => t,
        None => match parse_seconds(env) {
            Some(t) => t,
            None => match parse_seconds(build) {
                Some(t) => t,
                None => 5,
            },
        },
    };
    if t == u16::MAX {
        None
    } else {
        Some(t)
    }
}

/// The autoboot countdown.
#[derive(Debug)]
pub struct Countdown {
    secs: u16,
    remaining: u16,
}

/// What a step of the countdown leads to.
#[derive(Debug, Clone, Copy, PartialEq, Eq, Structural)]
pub enum CountdownStep {
    /// It goes on.
    Continue,
    /// A key was pressed, or waiting failed: the menu is shown.
    Cancel,
    /// The time is over: the default entry is booted.
    Expire,
}

/// Whether the time is over after the next wait, if no key is pressed. With a
/// timeout of `total` seconds there are as many waits; without one there are two
/// short ones.
pub open spec fn is_last_wait(total: int, left: int) -> bool {
    left <= 0 || (total > 0 && left <= 1)
}

/// How long a wait is, in milliseconds.
pub open spec fn wait_ms(total: int) -> int {
    if total == 0 {
        100
    } else {
        1000
    }
}

/// The waits that a countdown starts with.
pub open spec fn first_left(total: int) -> int {
    if total == 0 {
        1
    } else {
        total
    }
}

/// How many waits it takes until the time is over, if no key is pressed.
pub open spec fn quiet_waits(total: int, left: int) -> int
    decreases left,
{
    if is_last_wait(total, left) {
        1
    } else {
        1 + quiet_waits(total, left - 1)
    }
}

proof fn lemma_quiet_waits(total: int, left: int)
    requires
        total > 0,
        left > 0,
    ensures
        quiet_waits(total, left) == left,
    decreases left,
{
    if left > 1 {
        lemma_quiet_waits(total, left - 1);
    }
}

/// A countdown lasts as many seconds as the timeout says: after that many waits of
/// a second without a key the time is over, and not before.
pub proof fn countdown_lasts_its_seconds(secs: u16)
    requires
        secs > 0,
    ensures
        quiet_waits(secs as int, first_left(secs as int)) == secs,
        quiet_waits(secs as int, first_left(secs as int)) * wait_ms(secs as int) == secs * 1000,
{
    lemma_quiet_waits(secs as int, secs as int);
}

impl Countdown {
    /// The seconds that it started with.
    pub closed spec fn total(&self) -> int {
        self.secs as int
    }

    /// The waits that are left: the seconds, where there are any.
    pub closed spec fn left(&self) -> int {
        self.remaining as int
    }

    /// Starts the countdown, if there is a timeout and an entry that can be booted
    /// without asking.
    pub fn start(timeout: Option<u16>, has_default: bool, is_locked: bool) -> (r: Option<
        Countdown,
    >)
        ensures
            match r {
                Some(c) => timeout matches Some(secs) && has_default && !is_locked && c.total()
                    == secs && c.left() == first_left(secs as int),
                None => timeout is None || !has_default || is_locked,
            },
    {
        match timeout {
            Some(secs) => if has_default && !is_locked {
                Some(
                    Countdown {
                        secs,
                        remaining: if secs == 0 {
                            1
                        } else {
                            secs
                        },
                    },
                )
            } else {
                None
            },
            None => None,
        }
    }

    /// How long to wait for a key, in milliseconds.
    pub fn poll_ms(&self) -> (r: i32)
        ensures
            r == wait_ms(self.total()),
    {
        if self.secs == 0 {
            100
        } else {
            1000
        }
    }

    /// The seconds to show.
    pub fn shown_secs(&self) -> (r: u16)
        ensures
            r == (if self.total() == 0 {
                0
            } else {
                self.left()
            }),
    {
        if self.secs == 0 {
            0
        } else {
            self.remaining
        }
    }

    /// Takes what waiting gave: whether a key was pressed, or nothing if waiting
    /// failed.
    pub fn step(&mut self, pressed: Option<bool>) -> (r: CountdownStep)
        ensures
            final(self).total() == old(self).total(),
            r == (if pressed != Some(false) {
                CountdownStep::Cancel
            } else if is_last_wait(old(self).total(), old(self).left()) {
                CountdownStep::Expire
            } else {
                CountdownStep::Continue
            }),
            final(self).left() == (if r == CountdownStep::Continue {
                old(self).left() - 1
            } else {
                old(self).left()
            }),
    {
        match pressed {
            Some(false) => if self.remaining == 0 || (self.secs > 0 && self.remaining <= 1) {
                CountdownStep::Expire
            } else {
                self.remaining = self.remaining - 1;
                CountdownStep::Continue
            },
            _ => CountdownStep::Cancel,
        }
    }
}

// --- The default entry in the view ---

/// The first source row, from `from` on, of the given source.
pub open spec fn source_row(rows: Seq<Row>, source_idx: int, from: int) -> Option<ShownState>
    decreases rows.len() - from,
{
    if from < 0 || from >= rows.len() {
        None
    } else {
        match rows[from].kind {
            RowKind::Source { idx, state, .. } => if idx == source_idx {
                Some(state)
            } else {
                source_row(rows, source_idx, from + 1)
            },
            _ => source_row(rows, source_idx, from + 1),
        }
    }
}

/// The state of the source of the first default entry, from `from` on, whose
/// source is in the view.
pub open spec fn default_state(rows: Seq<Row>, from: int) -> Option<ShownState>
    decreases rows.len() - from,
{
    if from < 0 || from >= rows.len() {
        None
    } else {
        match rows[from].kind {
            RowKind::Entry { source_idx, .. } => if rows[from].is_default && source_row(
                rows,
                source_idx,
                0,
            ) is Some {
                source_row(rows, source_idx, 0)
            } else {
                default_state(rows, from + 1)
            },
            _ => default_state(rows, from + 1),
        }
    }
}

fn find_source_row(view: &TreeView, source_idx: usize) -> (r: Option<bool>)
    ensures
        match r {
            Some(locked) => source_row(view.rows(), source_idx as int, 0) matches Some(s)
                && locked == (s is Encrypted),
            None => source_row(view.rows(), source_idx as int, 0) is None,
        },
{
    let ghost rows = view.rows();
    let mut i: usize = 0;
    while i < view.nodes.len()
        invariant
            i <= view.nodes@.len(),
            rows == view.rows(),
            source_row(rows, source_idx as int, 0) == source_row(
                rows,
                source_idx as int,
                i as int,
            ),
        decreases view.nodes@.len() - i,
    {
        assert(rows[i as int] == view.nodes@[i as int]@);
        if let NodeKind::Source { idx, label: _, state } = &view.nodes[i].kind {
            if *idx == source_idx {
                return Some(
                    match state {
                        NodeSourceState::Encrypted => true,
                        _ => false,
                    },
                );
            }
        }
        i = i + 1;
    }
    None
}

/// Check if the default entry's source is locked (encrypted, not yet unlocked).
pub fn default_is_locked(view: &TreeView) -> (r: bool)
    ensures
        r == (default_state(view.rows(), 0) matches Some(s) && s is Encrypted),
{
    let ghost rows = view.rows();
    let mut i: usize = 0;
    while i < view.nodes.len()
        invariant
            i <= view.nodes@.len(),
            rows == view.rows(),
            default_state(rows, 0) == default_state(rows, i as int),
        decreases view.nodes@.len() - i,
    {
        assert(rows[i as int] == view.nodes@[i as int]@);
        if view.nodes[i].is_default {
            if let NodeKind::Entry { entry: _, source_idx } = &view.nodes[i].kind {
                if let Some(locked) = find_source_row(view, *source_idx) {
                    return locked;
                }
            }
        }
        i = i + 1;
    }
    false
}

/// The leaf that the row at `at` belongs to: the last leaf row up to it.
pub open spec fn leaf_at(rows: Seq<Row>, at: int) -> Option<Seq<u8>>
    decreases at + 1,
{
    if at < 0 || at >= rows.len() {
        None
    } else {
        match rows[at].kind {
            RowKind::Leaf { path, .. } => Some(path),
            _ => leaf_at(rows, at - 1),
        }
    }
}

fn find_leaf_at(view: &TreeView, at: usize) -> (r: Option<BootPath>)
    requires
        at < view.nodes@.len(),
    ensures
        opt_path(r) == leaf_at(view.rows(), at as int),
{
    let mut i: usize = at;
    loop
        invariant
            i <= at < view.nodes@.len(),
            leaf_at(view.rows(), at as int) == leaf_at(view.rows(), i as int),
        decreases i,
    {
        assert(view.rows()[i as int] == view.nodes@[i as int]@);
        if let NodeKind::Leaf { name: _, path, entry_count: _ } = &view.nodes[i].kind {
            return Some(path.clone());
        }
        assert(leaf_at(view.rows(), i as int) == leaf_at(view.rows(), i - 1));
        if i == 0 {
            assert(leaf_at(view.rows(), -1) is None);
            return None;
        }
        i = i - 1;
    }
}

/// Find the leaf path for the entry at the current cursor position in the tree view.
pub fn find_entry_leaf_path(view: &TreeView) -> (r: Option<BootPath>)
    requires
        view.cursor < view.nodes@.len(),
    ensures
        opt_path(r) == leaf_at(view.rows(), view.cursor as int),
{
    find_leaf_at(view, view.cursor)
}

/// What is to be booted: an entry of a leaf, or a file.
#[derive(Debug)]
pub enum TuiResult {
    Quit,
    Boot { leaf_path: BootPath, entry: Entry, source_idx: usize },
    BootFile { path: BootPath },
    Shell,
}

/// The model of what is to be booted.
pub enum ResultView {
    Quit,
    Boot { leaf_path: Seq<u8>, entry: EntryView, source_idx: int },
    BootFile { path: Seq<u8> },
    Shell,
}

impl View for TuiResult {
    type V = ResultView;

    open spec fn view(&self) -> ResultView {
        match self {
            TuiResult::Quit => ResultView::Quit,
            TuiResult::Boot { leaf_path, entry, source_idx } => ResultView::Boot {
                leaf_path: leaf_path@,
                entry: entry@,
                source_idx: *source_idx as int,
            },
            TuiResult::BootFile { path } => ResultView::BootFile { path: path@ },
            TuiResult::Shell => ResultView::Shell,
        }
    }
}

/// The first default entry, from `from` on, with its leaf.
pub open spec fn default_boot(rows: Seq<Row>, from: int) -> Option<ResultView>
    decreases rows.len() - from,
{
    if from < 0 || from >= rows.len() {
        None
    } else {
        match rows[from].kind {
            RowKind::Entry { entry, source_idx } => match leaf_at(rows, from) {
                Some(leaf_path) => if rows[from].is_default {
                    Some(ResultView::Boot { leaf_path, entry, source_idx })
                } else {
                    default_boot(rows, from + 1)
                },
                None => default_boot(rows, from + 1),
            },
            _ => default_boot(rows, from + 1),
        }
    }
}

/// Extract the boot result for the default entry from the tree view.
pub fn boot_default(view: &TreeView) -> (r: Option<TuiResult>)
    ensures
        match r {
            Some(t) => default_boot(view.rows(), 0) == Some(t@),
            None => default_boot(view.rows(), 0) is None,
        },
{
    let ghost rows = view.rows();
    let mut i: usize = 0;
    while i < view.nodes.len()
        invariant
            i <= view.nodes@.len(),
            rows == view.rows(),
            default_boot(rows, 0) == default_boot(rows, i as int),
        decreases view.nodes@.len() - i,
    {
        assert(rows[i as int] == view.nodes@[i as int]@);
        if view.nodes[i].is_default {
            if let NodeKind::Entry { entry, source_idx } = &view.nodes[i].kind {
                if let Some(leaf_path) = find_leaf_at(view, i) {
                    return Some(
                        TuiResult::Boot {
                            leaf_path,
                            entry: entry.clone(),
                            source_idx: *source_idx,
                        },
                    );
                }
            }
        }
        i = i + 1;
    }
    None
}

// --- The default entry in the trees ---

/// The first leaf, from `from` on, with the given path.
pub open spec fn leaf_with_path(s: Seq<LeafView>, path: Seq<u8>, from: int) -> Option<LeafView>
    decreases s.len() - from,
{
    if from < 0 || from >= s.len() {
        None
    } else if same_path(s[from].path, path) {
        Some(s[from])
    } else {
        leaf_with_path(s, path, from + 1)
    }
}

proof fn lemma_leaf_apart(a: Seq<LeafView>, b: Seq<LeafView>, path: Seq<u8>, from: int)
    requires
        0 <= from <= a.len(),
    ensures
        leaf_with_path(a + b, path, from) == (match leaf_with_path(a, path, from) {
            Some(l) => Some(l),
            None => leaf_with_path(b, path, 0),
        }),
    decreases a.len() - from,
{
    let c = a + b;
    if from < a.len() {
        assert(c[from] == a[from]);
        lemma_leaf_apart(a, b, path, from + 1);
    } else {
        lemma_leaf_shift(a, b, path, 0);
    }
}

proof fn lemma_leaf_shift(a: Seq<LeafView>, b: Seq<LeafView>, path: Seq<u8>, k: int)
    requires
        0 <= k <= b.len(),
    ensures
        leaf_with_path(a + b, path, a.len() + k) == leaf_with_path(b, path, k),
    decreases b.len() - k,
{
    if k < b.len() {
        assert((a + b)[a.len() + k] == b[k]);
        lemma_leaf_shift(a, b, path, k + 1);
    }
}

proof fn lemma_one_leaf(leaf: LeafView, path: Seq<u8>)
    ensures
        leaf_with_path(seq![leaf], path, 0) == (if same_path(leaf.path, path) {
            Some(leaf)
        } else {
            None
        }),
{
    reveal_with_fuel(leaf_with_path, 2);
}

/// The view of an optional leaf.
pub open spec fn opt_leaf(l: Option<&Leaf>) -> Option<LeafView> {
    match l {
        Some(x) => Some(x@),
        None => None,
    }
}

/// Finds the first leaf below the given nodes with the given path.
pub fn find_leaf_in_nodes<'a>(nodes: &'a Vec<TreeNode>, path: &BootPath) -> (r: Option<&'a Leaf>)
    ensures
        opt_leaf(r) == leaf_with_path(leaves(node_views(nodes@)), path@, 0),
    decreases nodes,
{
    let mut i: usize = 0;
    assert(nodes@.take(0) =~= Seq::<TreeNode>::empty());
    while i < nodes.len()
        invariant
            i <= nodes@.len(),
            leaf_with_path(leaves(node_views(nodes@.take(i as int))), path@, 0) is None,
        decreases nodes@.len() - i,
    {
        let ghost before = leaves(node_views(nodes@.take(i as int)));
        let ghost one = node_leaves(node_view(nodes@[i as int]));
        proof {
            node_views_step(nodes@, i as int);
            lemma_leaf_apart(before, one, path@, 0);
        }
        assert(decreases_to!(nodes => nodes@[i as int]));
        let here = match &nodes[i] {
            TreeNode::Leaf(leaf) => {
                proof {
                    lemma_one_leaf(leaf@, path@);
                }
                if leaf.path.is_same(path) {
                    Some(leaf)
                } else {
                    None
                }
            },
            TreeNode::Dir { name: _, children } => find_leaf_in_nodes(children, path),
        };
        if here.is_some() {
            proof {
                lemma_leaf_prefix(nodes@, i + 1, path@);
            }
            return here;
        }
        i = i + 1;
    }
    assert(nodes@.take(i as int) =~= nodes@);
    None
}

proof fn lemma_leaf_prefix(s: Seq<TreeNode>, n: int, path: Seq<u8>)
    requires
        0 <= n <= s.len(),
        leaf_with_path(leaves(node_views(s.take(n))), path, 0) is Some,
    ensures
        leaf_with_path(leaves(node_views(s)), path, 0) == leaf_with_path(
            leaves(node_views(s.take(n))),
            path,
            0,
        ),
    decreases s.len() - n,
{
    if n < s.len() {
        node_views_step(s, n);
        lemma_leaf_apart(
            leaves(node_views(s.take(n))),
            node_leaves(node_view(s[n])),
            path,
            0,
        );
        lemma_leaf_prefix(s, n + 1, path);
    } else {
        assert(s.take(n) =~= s);
    }
}

proof fn lemma_leaf_tree_prefix(t: Seq<Seq<TreeNodeView>>, n: int, path: Seq<u8>)
    requires
        0 <= n <= t.len(),
        leaf_with_path(all_leaves(t.take(n)), path, 0) is Some,
    ensures
        leaf_with_path(all_leaves(t), path, 0) == leaf_with_path(
            all_leaves(t.take(n)),
            path,
            0,
        ),
    decreases t.len() - n,
{
    if n < t.len() {
        assert(t.take(n + 1).drop_last() =~= t.take(n));
        assert(t.take(n + 1).last() == t[n]);
        lemma_leaf_apart(all_leaves(t.take(n)), leaves(t[n]), path, 0);
        lemma_leaf_tree_prefix(t, n + 1, path);
    } else {
        assert(t.take(n) =~= t);
    }
}

/// Finds the first leaf of all trees with the given path.
pub fn find_leaf<'a>(trees: &'a [(String, Vec<TreeNode>)], path: &BootPath) -> (r: Option<
    &'a Leaf,
>)
    ensures
        opt_leaf(r) == leaf_with_path(all_leaves(tree_views(trees@)), path@, 0),
{
    let ghost t = tree_views(trees@);
    let mut i: usize = 0;
    assert(t.take(0) =~= Seq::<Seq<TreeNodeView>>::empty());
    while i < trees.len()
        invariant
            i <= trees@.len(),
            t == tree_views(trees@),
            leaf_with_path(all_leaves(t.take(i as int)), path@, 0) is None,
        decreases trees@.len() - i,
    {
        proof {
            assert(t.take(i + 1).drop_last() =~= t.take(i as int));
            assert(t.take(i + 1).last() == node_views(trees@[i as int].1@));
            lemma_leaf_apart(
                all_leaves(t.take(i as int)),
                leaves(node_views(trees@[i as int].1@)),
                path@,
                0,
            );
        }
        let here = find_leaf_in_nodes(&trees[i].1, path);
        if here.is_some() {
            proof {
                lemma_leaf_tree_prefix(t, i + 1, path@);
            }
            return here;
        }
        i = i + 1;
    }
    assert(t.take(i as int) =~= t);
    None
}

/// The entry to boot without asking, with its leaf, or why there is none.
pub open spec fn auto_boot(
    trees: Seq<Seq<TreeNodeView>>,
    default: Option<SelectionView>,
) -> Result<(Seq<u8>, EntryView), Seq<char>> {
    match default {
        None => Err("no default entry found"@),
        Some(sel) => match leaf_with_path(all_leaves(trees), sel.leaf_path, 0) {
            None => Err("default leaf not found in tree"@),
            Some(leaf) => match entry_named(leaf.entries, sel.entry_name, 0) {
                None => Err("default entry not found in leaf"@),
                Some(e) => Ok((sel.leaf_path, e)),
            },
        },
    }
}

// --- Trees of sources ---

/// Where the boot tree of a mounted source is.
pub open spec fn boot_dir(mount_point: Seq<u8>) -> Seq<u8> {
    joined(mount_point, encode_utf8("boot"@))
}

/// The boot tree of a source, given what is in its boot directory, if that is a
/// directory. Only a mounted source has one, and one that cannot be walked is
/// empty.
pub open spec fn source_tree(
    src: SourceView,
    boot: Option<Result<Vec<DirItem>, IoFailure>>,
) -> Seq<TreeNodeView> {
    if src.state is Mounted && src.mount_point is Some && boot is Some {
        match boot_tree(boot_dir(src.mount_point->0), boot->0) {
            Ok(nodes) => nodes,
            Err(_) => Seq::empty(),
        }
    } else {
        Seq::empty()
    }
}

/// Where the boot tree of what is mounted at the given place is.
pub fn boot_dir_of(mount_point: &BootPath) -> (r: BootPath)
    ensures
        r@ == boot_dir(mount_point@),
{
    mount_point.join("boot".as_bytes())
}

/// Where the boot tree of a source is to be looked for.
pub fn boot_directory(src: &Source) -> (r: Option<BootPath>)
    ensures
        opt_path(r) == (if src@.state is Mounted && src@.mount_point is Some {
            Some(boot_dir(src@.mount_point->0))
        } else {
            None
        }),
{
    match &src.state {
        SourceState::Mounted => match &src.mount_point {
            Some(mp) => Some(boot_dir_of(mp)),
            None => None,
        },
        _ => None,
    }
}

/// Builds the boot tree of a source, with its label.
pub fn build_source_tree(src: &Source, boot: &Option<Result<Vec<DirItem>, IoFailure>>) -> (r: (
    String,
    Vec<TreeNode>,
))
    ensures
        r.0@ == src@.label,
        node_views(r.1@) == source_tree(src@, *boot),
{
    let empty: Vec<TreeNode> = Vec::new();
    let nodes = match boot_directory(src) {
        Some(dir) => match boot {
            Some(listing) => match walk_boot_tree(&dir, listing) {
                Ok(nodes) => nodes,
                Err(_) => empty,
            },
            None => empty,
        },
        None => empty,
    };
    (src.label.clone(), nodes)
}

/// The sources of static entries.
pub open spec fn static_views(s: Seq<(Source, String, Vec<TreeNode>)>) -> Seq<StaticSource> {
    s.map_values(|t: (Source, String, Vec<TreeNode>)| static_source_view(t))
}

/// Puts the sources that were found and the static ones together, and builds
/// their boot trees.
pub fn assemble(
    found: Vec<Source>,
    boots: &Vec<Option<Result<Vec<DirItem>, IoFailure>>>,
    statics: Vec<(Source, String, Vec<TreeNode>)>,
) -> (r: (Vec<Source>, Vec<(String, Vec<TreeNode>)>))
    requires
        boots@.len() == found@.len(),
    ensures
        r.0@.len() == r.1@.len(),
        source_views(r.0@) == all_sources(found@, statics@),
        tree_views(r.1@) == all_trees(found@, boots@, statics@),
        tree_labels(r.1@) == all_labels(found@, statics@),
{
    let ghost fv = source_views(found@);
    let ghost sv = static_views(statics@);
    let ghost built = Seq::new(found@.len(), |i: int| source_tree(found@[i]@, boots@[i]));
    let ghost fl = found@.map_values(|s: Source| s@.label);
    let mut trees: Vec<(String, Vec<TreeNode>)> = Vec::new();
    let mut i: usize = 0;
    assert(tree_views(trees@) =~= built.take(0));
    assert(tree_labels(trees@) =~= fl.take(0));
    while i < found.len()
        invariant
            i <= found@.len(),
            boots@.len() == found@.len(),
            trees@.len() == i,
            built == Seq::new(found@.len(), |i: int| source_tree(found@[i]@, boots@[i])),
            fl == found@.map_values(|s: Source| s@.label),
            tree_views(trees@) == built.take(i as int),
            tree_labels(trees@) == fl.take(i as int),
        decreases found@.len() - i,
    {
        let ghost before = trees@;
        let t = build_source_tree(&found[i], &boots[i]);
        trees.push(t);
        assert(tree_views(trees@) =~= tree_views(before).push(node_views(t.1@)));
        assert(built.take(i + 1) =~= built.take(i as int).push(built[i as int]));
        assert(tree_labels(trees@) =~= tree_labels(before).push(t.0@));
        assert(fl.take(i + 1) =~= fl.take(i as int).push(fl[i as int]));
        i = i + 1;
    }
    assert(built.take(i as int) =~= built);
    assert(fl.take(i as int) =~= fl);
    let mut sources = found;
    let mut rest = statics;
    let ghost mut done: int = 0;
    let ghost ss = sv.map_values(|s: StaticSource| s.source);
    let ghost st = sv.map_values(|s: StaticSource| s.tree);
    let ghost sl = sv.map_values(|s: StaticSource| s.label);
    assert(rest@ =~= statics@.skip(0));
    assert(source_views(sources@) =~= fv + ss.take(0));
    assert(tree_views(trees@) =~= built + st.take(0));
    assert(tree_labels(trees@) =~= fl + sl.take(0));
    while rest.len() > 0
        invariant
            0 <= done <= statics@.len(),
            rest@ == statics@.skip(done),
            sv == static_views(statics@),
            ss == sv.map_values(|s: StaticSource| s.source),
            st == sv.map_values(|s: StaticSource| s.tree),
            sl == sv.map_values(|s: StaticSource| s.label),
            sources@.len() == trees@.len(),
            source_views(sources@) == fv + ss.take(done),
            tree_views(trees@) == built + st.take(done),
            tree_labels(trees@) == fl + sl.take(done),
        decreases rest@.len(),
    {
        let ghost s0 = sources@;
        let ghost t0 = trees@;
        let (src, label, tree) = rest.remove(0);
        proof {
            assert(statics@.skip(done)[0] == statics@[done]);
            assert(rest@ =~= statics@.skip(done + 1));
            assert(sv[done] == static_source_view(statics@[done]));
        }
        sources.push(src);
        trees.push((label, tree));
        assert(source_views(sources@) =~= source_views(s0).push(src@));
        assert(tree_views(trees@) =~= tree_views(t0).push(node_views(tree@)));
        assert(tree_labels(trees@) =~= tree_labels(t0).push(label@));
        proof {
            assert(ss.take(done + 1) =~= ss.take(done).push(ss[done]));
            assert(st.take(done + 1) =~= st.take(done).push(st[done]));
            assert(sl.take(done + 1) =~= sl.take(done).push(sl[done]));
            assert(source_views(sources@) =~= fv + ss.take(done + 1));
            assert(tree_views(trees@) =~= built + st.take(done + 1));
            assert(tree_labels(trees@) =~= fl + sl.take(done + 1));
            done = done + 1;
        }
    }
    assert(ss.take(done) =~= ss);
    assert(st.take(done) =~= st);
    assert(sl.take(done) =~= sl);
    (sources, trees)
}

// --- Key handoff ---

/// The passphrase of a source and the UUID of its device, if the source was
/// unlocked and both can be told.
pub open spec fn key_data(
    sources: Seq<SourceView>,
    idx: int,
    uuids: Seq<DiskLink>,
) -> Option<(Seq<char>, Seq<char>)> {
    if idx < 0 || idx >= sources.len() {
        None
    } else {
        match sources[idx].passphrase {
            None => None,
            Some(pw) => match file_name_of(sources[idx].device) {
                None => None,
                Some(n) => match utf8_text(n) {
                    None => None,
                    Some(dev_name) => match link_name(uuids, dev_name, 0) {
                        None => None,
                        Some(uuid) => Some((pw, uuid)),
                    },
                },
            },
        }
    }
}

/// Extract passphrase and device UUID for key handoff, if the source was unlocked.
pub fn source_key_data(sources: &[Source], idx: usize, uuids: &[DiskLink]) -> (r: Option<
    (String, String),
>)
    ensures
        match r {
            Some((pw, uuid)) => key_data(source_views(sources@), idx as int, uuids@) == Some(
                (pw@, uuid@),
            ),
            None => key_data(source_views(sources@), idx as int, uuids@) is None,
        },
{
    if idx >= sources.len() {
        return None;
    }
    let src = &sources[idx];
    assert(source_views(sources@)[idx as int] == src@);
    let pw = match &src.passphrase {
        Some(pw) => pw,
        None => {
            return None;
        },
    };
    let name = match src.device.file_name() {
        Some(name) => name,
        None => {
            return None;
        },
    };
    let dev_name = match text_from_utf8(name.as_slice()) {
        Some(n) => n,
        None => {
            return None;
        },
    };
    match read_device_uuid(dev_name.as_str(), uuids) {
        Some(uuid) => Some((pw.clone(), uuid)),
        None => None,
    }
}

// --- Dry runs ---

/// What a dry run says instead of booting an entry.
pub open spec fn boot_report(leaf_path: Seq<u8>, entry: EntryView, has_key: bool) -> Seq<char> {
    "kexec-menu: would boot:\n  leaf:    "@ + path_text(leaf_path) + "\n  kernel:  "@
        + entry.kernel + "\n  initrd:  "@ + entry.initrd + "\n  cmdline: "@ + entry.cmdline
        + "\n  entry:   "@ + entry.name + "\n"@ + if has_key {
        "  key:     (handoff enabled)\n"@
    } else {
        Seq::empty()
    }
}

/// Says what would be booted.
pub fn report_boot(leaf_path: &BootPath, entry: &Entry, has_key: bool) -> (r: String)
    ensures
        r@ == boot_report(leaf_path@, entry@, has_key),
{
    let mut s = "kexec-menu: would boot:\n  leaf:    ".to_owned();
    s.append(leaf_path.to_text().as_str());
    s.append("\n  kernel:  ");
    s.append(entry.kernel.as_str());
    s.append("\n  initrd:  ");
    s.append(entry.initrd.as_str());
    s.append("\n  cmdline: ");
    s.append(entry.cmdline.as_str());
    s.append("\n  entry:   ");
    s.append(entry.name.as_str());
    s.append("\n");
    if has_key {
        s.append("  key:     (handoff enabled)\n");
    }
    assert(s@ =~= boot_report(leaf_path@, entry@, has_key));
    s
}

/// Says which file would be booted.
pub fn report_boot_file(path: &BootPath) -> (r: String)
    ensures
        r@ == file_report(path@),
{
    let mut s = "kexec-menu: would boot file:\n  path: ".to_owned();
    s.append(path.to_text().as_str());
    s.append("\n");
    s
}

// --- From the sources to the menu ---

/// What the menu shows: the sources, their boot trees, and the default selection.
#[derive(Debug)]
pub struct Prepared {
    pub sources: Vec<Source>,
    pub trees: Vec<(String, Vec<TreeNode>)>,
    pub default: Option<BootSelection>,
}

/// The sources that were found and the static ones.
pub open spec fn all_sources(
    found: Seq<Source>,
    statics: Seq<(Source, String, Vec<TreeNode>)>,
) -> Seq<SourceView> {
    source_views(found) + static_views(statics).map_values(|s: StaticSource| s.source)
}

/// The boot trees of the sources that were found and of the static ones.
pub open spec fn all_trees(
    found: Seq<Source>,
    boots: Seq<Option<Result<Vec<DirItem>, IoFailure>>>,
    statics: Seq<(Source, String, Vec<TreeNode>)>,
) -> Seq<Seq<TreeNodeView>> {
    Seq::new(found.len(), |i: int| source_tree(found[i]@, boots[i])) + static_views(
        statics,
    ).map_values(|s: StaticSource| s.tree)
}

/// The labels of these boot trees.
pub open spec fn all_labels(
    found: Seq<Source>,
    statics: Seq<(Source, String, Vec<TreeNode>)>,
) -> Seq<Seq<char>> {
    found.map_values(|s: Source| s@.label) + static_views(statics).map_values(
        |s: StaticSource| s.label,
    )
}

/// The default selection of the menu, given the contents of the EFI variable that holds
/// the remembered selection.
pub open spec fn prepared_default(
    trees: Seq<Seq<TreeNodeView>>,
    file: Option<Seq<u8>>,
) -> Option<SelectionView> {
    default_selection(trees, remembered(file))
}

/// The selection that was stored is the one that counts; without it, or where what is
/// there is no selection, none counts.
pub proof fn stored_selection_counts(
    trees: Seq<Seq<TreeNodeView>>,
    sel: SelectionView,
    data: Seq<u8>,
)
    ensures
        can_be_stored(sel) ==> prepared_default(trees, Some(efi_file(sel))) == default_selection(
            trees,
            Some(sel),
        ),
        prepared_default(trees, None) == default_selection(trees, None),
        data.len() <= 4 ==> prepared_default(trees, Some(data)) == default_selection(trees, None),
        !valid_utf8(data.skip(4)) ==> prepared_default(trees, Some(data)) == default_selection(
            trees,
            None,
        ),
{
    if can_be_stored(sel) {
        stored_selection_read_back(sel);
    }
}

/// Puts together what the menu shows, given the sources that were found, what is
/// in their boot directories, the static entries, and the contents of the EFI
/// variable that holds the remembered selection, if it could be read.
pub fn prepare(
    found: Vec<Source>,
    boots: &Vec<Option<Result<Vec<DirItem>, IoFailure>>>,
    statics: Vec<(Source, String, Vec<TreeNode>)>,
    efi_file: Option<&[u8]>,
) -> (r: Result<Prepared, Error>)
    requires
        boots@.len() == found@.len(),
    ensures
        match r {
            Ok(p) => {
                &&& found@.len() + statics@.len() > 0
                &&& p.sources@.len() == p.trees@.len()
                &&& source_views(p.sources@) == all_sources(found@, statics@)
                &&& tree_views(p.trees@) == all_trees(found@, boots@, statics@)
                &&& tree_labels(p.trees@) == all_labels(found@, statics@)
                &&& opt_selection(p.default) == prepared_default(
                    all_trees(found@, boots@, statics@),
                    opt_bytes(efi_file),
                )
            },
            Err(e) => found@.len() + statics@.len() == 0 && complains(
                e,
                "no boot sources found"@,
            ),
        },
{
    let (sources, trees) = assemble(found, boots, statics);
    assert(source_views(sources@).len() == sources@.len());
    if sources.len() == 0 {
        return Err(Error::Parse("no boot sources found".to_owned()));
    }
    let remembered = read_efi_selection(efi_file);
    let default = resolve_default(trees.as_slice(), remembered.as_ref());
    Ok(Prepared { sources, trees, default })
}

/// What is done once the menu has been left.
#[derive(Debug)]
pub enum Conclusion {
    /// Say something and end.
    Say(String),
    /// Boot an entry, handing on a key.
    Boot { leaf_path: BootPath, entry: Entry, key: Option<(String, String)> },
    /// Boot a file.
    BootFile { path: BootPath },
    /// Go to the rescue shell.
    Shell,
}

/// The model of what is done once the menu has been left.
pub enum ConclusionView {
    Say(Seq<char>),
    Boot { leaf_path: Seq<u8>, entry: EntryView, key: Option<(Seq<char>, Seq<char>)> },
    BootFile { path: Seq<u8> },
    Shell,
}

/// The view of optional key data.
pub open spec fn opt_key(k: Option<(String, String)>) -> Option<(Seq<char>, Seq<char>)> {
    match k {
        Some((pw, uuid)) => Some((pw@, uuid@)),
        None => None,
    }
}

impl View for Conclusion {
    type V = ConclusionView;

    open spec fn view(&self) -> ConclusionView {
        match self {
            Conclusion::Say(s) => ConclusionView::Say(s@),
            Conclusion::Boot { leaf_path, entry, key } => ConclusionView::Boot {
                leaf_path: leaf_path@,
                entry: entry@,
                key: opt_key(*key),
            },
            Conclusion::BootFile { path } => ConclusionView::BootFile { path: path@ },
            Conclusion::Shell => ConclusionView::Shell,
        }
    }
}

/// What is said instead of booting a file.
pub open spec fn file_report(path: Seq<u8>) -> Seq<char> {
    "kexec-menu: would boot file:\n  path: "@ + path_text(path) + "\n"@
}

/// What is done with what was chosen in the menu. The key that is handed on is
/// that of the source of the entry. A dry run only says what would be done.
pub open spec fn conclusion(
    result: ResultView,
    dry_run: bool,
    sources: Seq<SourceView>,
    uuids: Seq<DiskLink>,
) -> ConclusionView {
    match result {
        ResultView::Quit => ConclusionView::Say("kexec-menu: user quit\n"@),
        ResultView::Boot { leaf_path, entry, source_idx } => {
            let key = key_data(sources, source_idx, uuids);
            if dry_run {
                ConclusionView::Say(boot_report(leaf_path, entry, key is Some))
            } else {
                ConclusionView::Boot { leaf_path, entry, key }
            }
        },
        ResultView::BootFile { path } => if dry_run {
            ConclusionView::Say(file_report(path))
        } else {
            ConclusionView::BootFile { path }
        },
        ResultView::Shell => if dry_run {
            ConclusionView::Say("kexec-menu: would drop to rescue shell\n"@)
        } else {
            ConclusionView::Shell
        },
    }
}

/// A dry run boots nothing and goes to no shell, whatever was chosen: it says what
/// would be done.
pub proof fn dry_run_boots_nothing(
    result: ResultView,
    sources: Seq<SourceView>,
    uuids: Seq<DiskLink>,
)
    ensures
        conclusion(result, true, sources, uuids) is Say,
{
}

/// Whether something can be chosen in a menu with the given features.
pub open spec fn is_offered(result: ResultView, features: Features) -> bool {
    match result {
        ResultView::BootFile { .. } => features.full_fs_view,
        ResultView::Shell => features.rescue_shell,
        _ => true,
    }
}

/// Decides what is done with what was chosen in the menu.
pub fn conclude(
    result: TuiResult,
    dry_run: bool,
    features: Features,
    sources: &[Source],
    uuids: &[DiskLink],
) -> (r: Conclusion)
    requires
        is_offered(result@, features),
    ensures
        r@ == conclusion(result@, dry_run, source_views(sources@), uuids@),
{
    match result {
        TuiResult::Quit => Conclusion::Say("kexec-menu: user quit\n".to_owned()),
        TuiResult::Boot { leaf_path, entry, source_idx } => {
            let key = source_key_data(sources, source_idx, uuids);
            if dry_run {
                Conclusion::Say(report_boot(&leaf_path, &entry, key.is_some()))
            } else {
                Conclusion::Boot { leaf_path, entry, key }
            }
        },
        TuiResult::BootFile { path } => if dry_run {
            Conclusion::Say(report_boot_file(&path))
        } else {
            Conclusion::BootFile { path }
        },
        TuiResult::Shell => if dry_run {
            Conclusion::Say("kexec-menu: would drop to rescue shell\n".to_owned())
        } else {
            Conclusion::Shell
        },
    }
}

/// Finds the entry to boot without asking.
fn find_auto_default(
    trees: &[(String, Vec<TreeNode>)],
    default: Option<&BootSelection>,
) -> (r: Result<(BootPath, Entry), Error>)
    ensures
        match r {
            Ok((path, entry)) => auto_boot(tree_views(trees@), opt_selection_ref(default)) == Ok::<
                (Seq<u8>, EntryView),
                Seq<char>,
            >((path@, entry@)),
            Err(e) => auto_boot(tree_views(trees@), opt_selection_ref(default)) matches Err(m)
                && complains(e, m),
        },
{
    let sel = match default {
        Some(sel) => sel,
        None => {
            return Err(Error::Parse("no default entry found".to_owned()));
        },
    };
    let leaf = match find_leaf(trees, &sel.leaf_path) {
        Some(leaf) => leaf,
        None => {
            return Err(Error::Parse("default leaf not found in tree".to_owned()));
        },
    };
    let ghost ev = leaf@.entries;
    let mut i: usize = 0;
    while i < leaf.entries.len()
        invariant
            i <= leaf.entries@.len(),
            ev == leaf@.entries,
            entry_named(ev, sel.entry_name@, 0) == entry_named(ev, sel.entry_name@, i as int),
            default == Some(sel),
            leaf_with_path(all_leaves(tree_views(trees@)), sel.leaf_path@, 0) == Some(leaf@),
        decreases leaf.entries@.len() - i,
    {
        assert(ev[i as int] == leaf.entries@[i as int]@);
        if leaf.entries[i].name == sel.entry_name {
            return Ok((sel.leaf_path.clone(), leaf.entries[i].clone()));
        }
        i = i + 1;
    }
    Err(Error::Parse("default entry not found in leaf".to_owned()))
}

/// What is done with the entry to boot without asking. A dry run only says what
/// would be booted; no key is handed on.
pub open spec fn auto_conclusion(dry_run: bool, path: Seq<u8>, entry: EntryView) -> ConclusionView {
    if dry_run {
        ConclusionView::Say(boot_report(path, entry, false))
    } else {
        ConclusionView::Boot { leaf_path: path, entry, key: None }
    }
}

/// Boots the default entry without showing the menu, or says what would be booted
/// in a dry run. No key is handed on.
pub fn run_auto_default(
    dry_run: bool,
    trees: &[(String, Vec<TreeNode>)],
    default: Option<&BootSelection>,
) -> (r: Result<Conclusion, Error>)
    ensures
        match auto_boot(tree_views(trees@), opt_selection_ref(default)) {
            Ok((path, entry)) => r matches Ok(c) && c@ == auto_conclusion(dry_run, path, entry),
            Err(m) => r matches Err(e) && complains(e, m),
        },
{
    match find_auto_default(trees, default) {
        Ok((leaf_path, entry)) => if dry_run {
            Ok(Conclusion::Say(report_boot(&leaf_path, &entry, false)))
        } else {
            Ok(Conclusion::Boot { leaf_path, entry, key: None })
        },
        Err(e) => Err(e),
    }
}

/// What follows an attempt to boot.
#[derive(Debug)]
pub enum Aftermath {
    /// Nothing: the kernel was started.
    Done,
    /// Say something and go to the rescue shell.
    Shell(String),
    /// End with the error.
    Fail(Error),
}

/// The model of what follows an attempt to boot.
pub enum AftermathView {
    Done,
    Shell(Seq<char>),
    Fail(ErrorView),
}

impl View for Aftermath {
    type V = AftermathView;

    open spec fn view(&self) -> AftermathView {
        match self {
            Aftermath::Done => AftermathView::Done,
            Aftermath::Shell(text) => AftermathView::Shell(text@),
            Aftermath::Fail(e) => AftermathView::Fail(e@),
        }
    }
}

/// What follows an attempt to boot. If it failed, the rescue shell is at hand where
/// there is one and somebody is at the menu.
pub open spec fn aftermath(
    outcome: Result<(), Error>,
    auto_default: bool,
    features: Features,
) -> AftermathView {
    match outcome {
        Ok(_) => AftermathView::Done,
        Err(e) => if features.rescue_shell && !auto_default {
            AftermathView::Shell("kexec-menu: kexec failed: "@ + e@.text() + "\n"@)
        } else {
            AftermathView::Fail(e@)
        },
    }
}

/// Decides what follows an attempt to boot.
pub fn after_boot(outcome: Result<(), Error>, auto_default: bool, features: Features) -> (r:
    Aftermath)
    ensures
        r@ == aftermath(outcome, auto_default, features),
{
    match outcome {
        Ok(_) => Aftermath::Done,
        Err(e) => if features.rescue_shell && !auto_default {
            let mut text = "kexec-menu: kexec failed: ".to_owned();
            text.append(e.to_text().as_str());
            text.append("\n");
            assert(text@ =~= "kexec-menu: kexec failed: "@ + e@.text() + "\n"@);
            Aftermath::Shell(text)
        } else {
            Aftermath::Fail(e)
        },
    }
}

/// A failure to boot leads to the rescue shell exactly where there is one and the menu
/// was shown; else it is the end. Without a failure nothing follows.
pub proof fn failures_lead_to_the_shell(
    outcome: Result<(), Error>,
    auto_default: bool,
    features: Features,
)
    ensures
        aftermath(outcome, auto_default, features) is Done <==> outcome is Ok,
        aftermath(outcome, auto_default, features) is Shell <==> outcome is Err
            && features.rescue_shell && !auto_default,
        outcome matches Err(e) ==> (aftermath(outcome, auto_default, features) matches
            AftermathView::Fail(f) ==> f == e@),
{
}

} // verus!
