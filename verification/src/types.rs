//! The data that the menu works on.

use vstd::prelude::*;

use crate::path::BootPath;
use crate::text::opt_text;

verus! {

/// What the operating system reported when an operation failed.
#[derive(Debug)]
pub struct IoFailure {
    /// The error number, if there is one.
    pub code: Option<i32>,
    pub message: String,
}

/// Why something could not be done.
#[derive(Debug)]
pub enum Error {
    Io(IoFailure),
    Parse(String),
}

/// The model of an error.
pub enum ErrorView {
    Io(Option<i32>, Seq<char>),
    Parse(Seq<char>),
}

impl View for Error {
    type V = ErrorView;

    open spec fn view(&self) -> ErrorView {
        match self {
            Error::Io(f) => ErrorView::Io(f.code, f.message@),
            Error::Parse(m) => ErrorView::Parse(m@),
        }
    }
}

impl ErrorView {
    /// The text by which the error is shown.
    pub open spec fn text(self) -> Seq<char> {
        match self {
            ErrorView::Io(_, m) => m,
            ErrorView::Parse(m) => m,
        }
    }
}

impl Error {
    /// The text by which the error is shown.
    pub fn to_text(&self) -> (r: String)
        ensures
            r@ == self@.text(),
    {
        match self {
            Error::Io(f) => f.message.clone(),
            Error::Parse(m) => m.clone(),
        }
    }
}

/// What a build of the program offers.
#[derive(Debug, Clone, Copy, PartialEq, Eq, Structural)]
pub struct Features {
    /// Browsing whole filesystems.
    pub full_fs_view: bool,
    /// A shell to go to when something fails.
    pub rescue_shell: bool,
    /// Looking only at the disks of a list.
    pub disk_whitelist: bool,
}

impl Features {
    /// The list of disks that counts, if any.
    pub fn whitelist(&self, list: Option<String>) -> (r: Option<String>)
        ensures
            r == (if self.disk_whitelist {
                list
            } else {
                None
            }),
    {
        if self.disk_whitelist {
            list
        } else {
            None
        }
    }
}

/// A mountable filesystem source.
#[derive(Debug)]
pub struct Source {
    pub label: String,
    pub device: BootPath,
    pub state: SourceState,
    pub mount_point: Option<BootPath>,
    /// The passphrase that unlocked the source, kept for the key handoff.
    pub passphrase: Option<String>,
}

#[derive(Debug)]
pub enum SourceState {
    Mounted,
    Encrypted,
    Error(String),
    Static,
}

/// The model of a source's state.
pub enum SourceStateView {
    Mounted,
    Encrypted,
    Error(Seq<char>),
    Static,
}

/// The model of a source.
pub struct SourceView {
    pub label: Seq<char>,
    pub device: Seq<u8>,
    pub state: SourceStateView,
    pub mount_point: Option<Seq<u8>>,
    pub passphrase: Option<Seq<char>>,
}

impl View for SourceState {
    type V = SourceStateView;

    open spec fn view(&self) -> SourceStateView {
        match self {
            SourceState::Mounted => SourceStateView::Mounted,
            SourceState::Encrypted => SourceStateView::Encrypted,
            SourceState::Error(e) => SourceStateView::Error(e@),
            SourceState::Static => SourceStateView::Static,
        }
    }
}

/// The view of an optional path.
pub open spec fn opt_path(p: Option<BootPath>) -> Option<Seq<u8>> {
    match p {
        Some(q) => Some(q@),
        None => None,
    }
}

impl View for Source {
    type V = SourceView;

    open spec fn view(&self) -> SourceView {
        SourceView {
            label: self.label@,
            device: self.device@,
            state: self.state@,
            mount_point: opt_path(self.mount_point),
            passphrase: opt_text(self.passphrase),
        }
    }
}

/// The views of a sequence of sources.
pub open spec fn source_views(s: Seq<Source>) -> Seq<SourceView> {
    s.map_values(|x: Source| x@)
}

/// A boot entry from entries.json.
#[derive(Debug)]
pub struct Entry {
    pub name: String,
    pub kernel: String,
    pub initrd: String,
    pub cmdline: String,
}

/// The model of a boot entry.
pub struct EntryView {
    pub name: Seq<char>,
    pub kernel: Seq<char>,
    pub initrd: Seq<char>,
    pub cmdline: Seq<char>,
}

impl View for Entry {
    type V = EntryView;

    open spec fn view(&self) -> EntryView {
        EntryView {
            name: self.name@,
            kernel: self.kernel@,
            initrd: self.initrd@,
            cmdline: self.cmdline@,
        }
    }
}

impl Clone for Entry {
    fn clone(&self) -> (r: Self)
        ensures
            r@ == self@,
    {
        Entry {
            name: self.name.clone(),
            kernel: self.kernel.clone(),
            initrd: self.initrd.clone(),
            cmdline: self.cmdline.clone(),
        }
    }
}

/// The views of a sequence of entries.
pub open spec fn entry_views(s: Seq<Entry>) -> Seq<EntryView> {
    s.map_values(|x: Entry| x@)
}

/// A leaf directory containing entries.json.
#[derive(Debug)]
pub struct Leaf {
    pub path: BootPath,
    pub entries: Vec<Entry>,
    /// When the directory was last modified, in seconds.
    pub mtime: u64,
}

/// The model of a leaf.
pub struct LeafView {
    pub path: Seq<u8>,
    pub entries: Seq<EntryView>,
    pub mtime: u64,
}

impl View for Leaf {
    type V = LeafView;

    open spec fn view(&self) -> LeafView {
        LeafView { path: self.path@, entries: entry_views(self.entries@), mtime: self.mtime }
    }
}

/// A node in the boot tree.
#[derive(Debug)]
pub enum TreeNode {
    Dir { name: String, children: Vec<TreeNode> },
    Leaf(Leaf),
}

/// The model of a node in the boot tree.
pub enum TreeNodeView {
    Dir { name: Seq<char>, children: Seq<TreeNodeView> },
    Leaf(LeafView),
}

/// The view of a node.
pub open spec fn node_view(n: TreeNode) -> TreeNodeView
    decreases n,
{
    match n {
        TreeNode::Dir { name, children } => TreeNodeView::Dir {
            name: name@,
            children: node_views(children@),
        },
        TreeNode::Leaf(leaf) => TreeNodeView::Leaf(leaf@),
    }
}

/// The views of a sequence of nodes.
pub open spec fn node_views(s: Seq<TreeNode>) -> Seq<TreeNodeView>
    decreases s,
{
    if s.len() == 0 {
        Seq::empty()
    } else {
        node_views(s.drop_last()).push(node_view(s[s.len() - 1]))
    }
}

impl View for TreeNode {
    type V = TreeNodeView;

    open spec fn view(&self) -> TreeNodeView {
        node_view(*self)
    }
}

/// The view of a sequence of nodes has the nodes' views.
pub proof fn node_views_index(s: Seq<TreeNode>)
    ensures
        node_views(s).len() == s.len(),
        forall|i: int| 0 <= i < s.len() ==> #[trigger] node_views(s)[i] == node_view(s[i]),
    decreases s.len(),
{
    if s.len() > 0 {
        node_views_index(s.drop_last());
    }
}

/// The views of the first nodes of a sequence, one by one.
pub proof fn node_views_step(s: Seq<TreeNode>, i: int)
    requires
        0 <= i < s.len(),
    ensures
        node_views(s.take(i + 1)) == node_views(s.take(i)).push(node_view(s[i])),
        node_views(s.take(i + 1)).len() > 0,
        node_views(s.take(i + 1)).drop_last() == node_views(s.take(i)),
        node_views(s.take(i + 1))[node_views(s.take(i + 1)).len() - 1] == node_view(s[i]),
{
    assert(s.take(i + 1).drop_last() =~= s.take(i));
    let n = node_views(s.take(i)).push(node_view(s[i]));
    assert(n.drop_last() =~= node_views(s.take(i)));
}

/// The labels of boot trees.
pub open spec fn tree_labels(s: Seq<(String, Vec<TreeNode>)>) -> Seq<Seq<char>> {
    s.map_values(|t: (String, Vec<TreeNode>)| t.0@)
}

/// The boot tree of each source, without the label beside it.
pub open spec fn tree_views(s: Seq<(String, Vec<TreeNode>)>) -> Seq<Seq<TreeNodeView>> {
    s.map_values(|t: (String, Vec<TreeNode>)| node_views(t.1@))
}

/// The resolved default boot selection.
#[derive(Debug, PartialEq, Eq)]
pub struct BootSelection {
    pub leaf_path: BootPath,
    pub entry_name: String,
}

/// The model of a boot selection.
pub struct SelectionView {
    pub leaf_path: Seq<u8>,
    pub entry_name: Seq<char>,
}

impl View for BootSelection {
    type V = SelectionView;

    open spec fn view(&self) -> SelectionView {
        SelectionView { leaf_path: self.leaf_path@, entry_name: self.entry_name@ }
    }
}

impl Clone for BootSelection {
    fn clone(&self) -> (r: Self)
        ensures
            r@ == self@,
    {
        BootSelection { leaf_path: self.leaf_path.clone(), entry_name: self.entry_name.clone() }
    }
}

/// The view of an optional boot selection.
pub open spec fn opt_selection(s: Option<BootSelection>) -> Option<SelectionView> {
    match s {
        Some(x) => Some(x@),
        None => None,
    }
}

/// The view of an optional reference to a boot selection.
pub open spec fn opt_selection_ref(s: Option<&BootSelection>) -> Option<SelectionView> {
    match s {
        Some(x) => Some(x@),
        None => None,
    }
}

} // verus!
