//! Menus: navigable lists of items, and how they are made from sources, boot
//! trees, entries and directories.

use vstd::prelude::*;

use crate::path::{
    bytes_before, bytes_go_before, joined, path_text, same_path, short_name, BootPath,
};
use crate::sort::{sorted, stable_sort, views, Ranked};
use crate::text::{decimal, lossy_text, push_decimal, utf8_lossy};
use crate::tree::io_error;
use crate::treeview::{default_source, leads_to_default, opt_int, tree_contains_path};
use crate::types::{
    node_view, node_views, node_views_step, opt_selection_ref, source_views, tree_views,
    BootSelection, Entry, EntryView, Error, ErrorView, IoFailure, SelectionView, Source,
    SourceState, SourceStateView, SourceView, TreeNode, TreeNodeView,
};

verus! {

// --- Menu model ---

/// A navigable list of items with a cursor and optional pre-selected index.
#[derive(Debug)]
pub struct Menu {
    pub items: Vec<MenuItem>,
    pub cursor: usize,
    pub preselected: Option<usize>,
}

#[derive(Debug)]
pub struct MenuItem {
    pub label: String,
    pub detail: String,
    pub state: ItemState,
}

#[derive(Debug, PartialEq, Eq)]
pub enum ItemState {
    Normal,
    Default,
    Locked,
    Error(String),
}

/// The model of an item's state.
pub enum Mark {
    Normal,
    Default,
    Locked,
    Error(Seq<char>),
}

/// The model of an item.
pub struct ItemView {
    pub label: Seq<char>,
    pub detail: Seq<char>,
    pub state: Mark,
}

/// The model of a menu.
pub struct MenuView {
    pub items: Seq<ItemView>,
    pub cursor: int,
    pub preselected: Option<int>,
}

impl View for ItemState {
    type V = Mark;

    open spec fn view(&self) -> Mark {
        match self {
            ItemState::Normal => Mark::Normal,
            ItemState::Default => Mark::Default,
            ItemState::Locked => Mark::Locked,
            ItemState::Error(e) => Mark::Error(e@),
        }
    }
}

impl View for MenuItem {
    type V = ItemView;

    open spec fn view(&self) -> ItemView {
        ItemView { label: self.label@, detail: self.detail@, state: self.state@ }
    }
}

impl View for Menu {
    type V = MenuView;

    open spec fn view(&self) -> MenuView {
        MenuView {
            items: views(self.items@),
            cursor: self.cursor as int,
            preselected: opt_int(self.preselected),
        }
    }
}

/// A menu as it is made: the cursor is on the pre-selected item, or on the last
/// one if there are fewer.
pub open spec fn menu_of(items: Seq<ItemView>, preselected: Option<int>) -> MenuView {
    let wanted = match preselected {
        Some(i) => i,
        None => 0,
    };
    let last = if items.len() > 0 {
        items.len() - 1
    } else {
        0
    };
    MenuView {
        items,
        cursor: if wanted < last {
            wanted
        } else {
            last
        },
        preselected,
    }
}

impl MenuView {
    /// Moves to the previous item, if there is one.
    pub open spec fn up(self) -> MenuView {
        if self.cursor > 0 {
            MenuView { cursor: self.cursor - 1, ..self }
        } else {
            self
        }
    }

    /// Moves to the next item, if there is one.
    pub open spec fn down(self) -> MenuView {
        if self.cursor + 1 < self.items.len() {
            MenuView { cursor: self.cursor + 1, ..self }
        } else {
            self
        }
    }

    /// Whether the cursor is on an item, if there is any.
    pub open spec fn is_sound(self) -> bool {
        &&& self.items.len() == 0 ==> self.cursor == 0
        &&& self.items.len() > 0 ==> 0 <= self.cursor < self.items.len()
    }
}

/// A menu is made with the cursor on an item, and moving keeps it on one.
pub proof fn cursor_stays_on_item(items: Seq<ItemView>, preselected: Option<int>, m: MenuView)
    requires
        preselected matches Some(i) ==> i >= 0,
        m.is_sound(),
    ensures
        menu_of(items, preselected).is_sound(),
        m.up().is_sound(),
        m.down().is_sound(),
{
}

impl Menu {
    pub fn new(items: Vec<MenuItem>, preselected: Option<usize>) -> (r: Menu)
        ensures
            r@ == menu_of(views(items@), opt_int(preselected)),
    {
        let wanted: usize = match preselected {
            Some(i) => i,
            None => 0,
        };
        let last: usize = if items.len() > 0 {
            items.len() - 1
        } else {
            0
        };
        let cursor: usize = if wanted < last {
            wanted
        } else {
            last
        };
        Menu { items, cursor, preselected }
    }

    pub fn is_empty(&self) -> (r: bool)
        ensures
            r == (self@.items.len() == 0),
    {
        self.items.len() == 0
    }

    pub fn move_up(&mut self)
        ensures
            final(self)@ == old(self)@.up(),
    {
        if self.cursor > 0 {
            self.cursor = self.cursor - 1;
        }
    }

    pub fn move_down(&mut self)
        requires
            old(self).cursor < usize::MAX,
        ensures
            final(self)@ == old(self)@.down(),
    {
        if self.cursor + 1 < self.items.len() {
            self.cursor = self.cursor + 1;
        }
    }

    pub fn selected(&self) -> (r: Option<&MenuItem>)
        ensures
            match r {
                Some(i) => self.cursor < self.items@.len() && *i == self.items@[self.cursor as int],
                None => self.cursor >= self.items@.len(),
            },
    {
        if self.cursor < self.items.len() {
            Some(&self.items[self.cursor])
        } else {
            None
        }
    }

    pub fn selected_index(&self) -> (r: usize)
        ensures
            r == self.cursor,
    {
        self.cursor
    }
}

// --- The tree as a list ---

/// A flattened tree node for display.
#[derive(Debug)]
pub struct FlatNode {
    pub depth: usize,
    pub kind: FlatNodeKind,
}

#[derive(Debug)]
pub enum FlatNodeKind {
    Dir { name: String },
    Leaf { name: String, entry_count: usize, path: BootPath },
}

/// The model of the kind of a flattened node.
pub enum FlatKind {
    Dir { name: Seq<char> },
    Leaf { name: Seq<char>, entry_count: int, path: Seq<u8> },
}

/// The model of a flattened node.
pub struct FlatRow {
    pub depth: int,
    pub kind: FlatKind,
}

impl View for FlatNode {
    type V = FlatRow;

    open spec fn view(&self) -> FlatRow {
        FlatRow {
            depth: self.depth as int,
            kind: match self.kind {
                FlatNodeKind::Dir { name } => FlatKind::Dir { name: name@ },
                FlatNodeKind::Leaf { name, entry_count, path } => FlatKind::Leaf {
                    name: name@,
                    entry_count: entry_count as int,
                    path: path@,
                },
            },
        }
    }
}

/// The nodes of a tree as a list: each is followed by what is below it.
pub open spec fn flat_node(n: TreeNodeView, depth: int) -> Seq<FlatRow>
    decreases n,
{
    match n {
        TreeNodeView::Dir { name, children } => seq![
            FlatRow { depth, kind: FlatKind::Dir { name } },
        ] + flat_rows(children, depth + 1),
        TreeNodeView::Leaf(leaf) => seq![
            FlatRow {
                depth,
                kind: FlatKind::Leaf {
                    name: short_name(leaf.path),
                    entry_count: leaf.entries.len() as int,
                    path: leaf.path,
                },
            },
        ],
    }
}

/// A sequence of nodes as a list.
pub open spec fn flat_rows(nodes: Seq<TreeNodeView>, depth: int) -> Seq<FlatRow>
    decreases nodes,
{
    if nodes.len() == 0 {
        Seq::empty()
    } else {
        flat_rows(nodes.drop_last(), depth) + flat_node(nodes[nodes.len() - 1], depth)
    }
}

/// How deep directories lie in each other.
pub open spec fn node_height(n: TreeNodeView) -> nat
    decreases n,
{
    match n {
        TreeNodeView::Dir { name, children } => 1 + height(children),
        TreeNodeView::Leaf(leaf) => 0,
    }
}

/// How deep directories lie in each other, at most.
pub open spec fn height(nodes: Seq<TreeNodeView>) -> nat
    decreases nodes,
{
    if nodes.len() == 0 {
        0
    } else {
        let a = height(nodes.drop_last());
        let b = node_height(nodes[nodes.len() - 1]);
        if a < b {
            b
        } else {
            a
        }
    }
}

proof fn lemma_height_part(s: Seq<TreeNode>, i: int)
    requires
        0 <= i < s.len(),
    ensures
        node_height(node_view(s[i])) <= height(node_views(s)),
    decreases s.len(),
{
    let n = s.len() - 1;
    node_views_step(s, n);
    assert(s.take(n + 1) =~= s);
    if i < n {
        lemma_height_part(s.take(n), i);
        assert(s.take(n)[i] == s[i]);
    }
}

/// Adds a tree to a list. The depth cannot run over: every directory above is
/// in the list, or the tree is known to be low enough.
fn flatten_into(out: &mut Vec<FlatNode>, nodes: &Vec<TreeNode>, depth: usize)
    requires
        depth <= old(out)@.len() || depth + height(node_views(nodes@)) <= usize::MAX,
    ensures
        views(final(out)@) == views(old(out)@) + flat_rows(node_views(nodes@), depth as int),
    decreases nodes,
{
    let ghost start = views(out@);
    let ghost len0 = out@.len();
    let mut i: usize = 0;
    assert(nodes@.take(0) =~= Seq::<TreeNode>::empty());
    assert(start =~= start + flat_rows(node_views(nodes@.take(0)), depth as int));
    while i < nodes.len()
        invariant
            i <= nodes@.len(),
            len0 <= out@.len(),
            depth <= len0 || depth + height(node_views(nodes@)) <= usize::MAX,
            views(out@) == start + flat_rows(node_views(nodes@.take(i as int)), depth as int),
        decreases nodes@.len() - i,
    {
        let ghost before = views(out@);
        let ghost were = out@.len();
        proof {
            node_views_step(nodes@, i as int);
            lemma_height_part(nodes@, i as int);
        }
        assert(decreases_to!(nodes => nodes@[i as int]));
        match &nodes[i] {
            TreeNode::Dir { name, children } => {
                let node = FlatNode { depth, kind: FlatNodeKind::Dir { name: name.clone() } };
                out.push(node);
                assert(views(out@) =~= before + seq![node@]);
                assert(out.len() <= usize::MAX);
                flatten_into(out, children, depth + 1);
                assert(views(out@) =~= before + flat_node(
                    node_view(nodes@[i as int]),
                    depth as int,
                ));
                assert(views(out@).len() == out@.len() && before.len() == were);
            },
            TreeNode::Leaf(leaf) => {
                let node = FlatNode {
                    depth,
                    kind: FlatNodeKind::Leaf {
                        name: leaf.path.listing_name(),
                        entry_count: leaf.entries.len(),
                        path: leaf.path.clone(),
                    },
                };
                out.push(node);
                assert(views(out@) =~= before + seq![node@]);
            },
        }
        assert(views(out@) =~= start + flat_rows(node_views(nodes@.take(i + 1)), depth as int));
        i = i + 1;
    }
    assert(nodes@.take(i as int) =~= nodes@);
}

/// Flatten a tree into a list of FlatNodes for display.
pub fn flatten_tree(nodes: &Vec<TreeNode>, depth: usize) -> (r: Vec<FlatNode>)
    requires
        depth + height(node_views(nodes@)) <= usize::MAX,
    ensures
        views(r@) == flat_rows(node_views(nodes@), depth as int),
{
    let mut out: Vec<FlatNode> = Vec::new();
    flatten_into(&mut out, nodes, depth);
    assert(views(Seq::<FlatNode>::empty()) =~= Seq::<FlatRow>::empty());
    assert(views(out@) =~= flat_rows(node_views(nodes@), depth as int));
    out
}

// --- Menus ---

/// What is said of a source behind its device.
pub open spec fn state_label(state: SourceStateView) -> Seq<char> {
    match state {
        SourceStateView::Mounted => ""@,
        SourceStateView::Encrypted => " [locked]"@,
        SourceStateView::Error(_) => " [error]"@,
        SourceStateView::Static => " [static]"@,
    }
}

/// The item of a source.
pub open spec fn source_item(src: SourceView) -> ItemView {
    ItemView {
        label: src.label,
        detail: path_text(src.device) + state_label(src.state),
        state: match src.state {
            SourceStateView::Mounted => Mark::Normal,
            SourceStateView::Static => Mark::Normal,
            SourceStateView::Encrypted => Mark::Locked,
            SourceStateView::Error(e) => Mark::Error(e),
        },
    }
}

/// The menu of sources. The first source whose tree holds the default leaf is
/// pre-selected.
pub open spec fn source_menu(
    sources: Seq<SourceView>,
    default: Option<SelectionView>,
    trees: Seq<Seq<TreeNodeView>>,
) -> MenuView {
    menu_of(
        sources.map_values(|s: SourceView| source_item(s)),
        match default_source(trees, default, 0) {
            Some(i) => if i < sources.len() {
                Some(i)
            } else {
                None
            },
            None => None,
        },
    )
}

proof fn lemma_no_default_before(
    trees: Seq<Seq<TreeNodeView>>,
    default: Option<SelectionView>,
    from: int,
    n: int,
)
    requires
        0 <= from,
        forall|k: int|
            from <= k < n && k < trees.len() ==> !leads_to_default(#[trigger] trees[k], default),
    ensures
        default_source(trees, default, from) matches Some(i) ==> i >= n && from <= i < trees.len()
            && leads_to_default(trees[i], default),
    decreases trees.len() - from,
{
    if from < trees.len() && !leads_to_default(trees[from], default) {
        lemma_no_default_before(trees, default, from + 1, n);
    }
}

proof fn lemma_default_here(
    trees: Seq<Seq<TreeNodeView>>,
    default: Option<SelectionView>,
    from: int,
    n: int,
)
    requires
        0 <= from <= n < trees.len(),
        forall|k: int| from <= k < n ==> !leads_to_default(#[trigger] trees[k], default),
        leads_to_default(trees[n], default),
    ensures
        default_source(trees, default, from) == Some(n),
    decreases n - from,
{
    if from < n {
        lemma_default_here(trees, default, from + 1, n);
    }
}

/// Build a source menu from a list of sources.
pub fn build_source_menu(
    sources: &[Source],
    default: Option<&BootSelection>,
    trees: &[(String, Vec<TreeNode>)],
) -> (r: Menu)
    ensures
        r@ == source_menu(source_views(sources@), opt_selection_ref(default), tree_views(trees@)),
{
    let ghost d = opt_selection_ref(default);
    let ghost tv = tree_views(trees@);
    let mut preselected: Option<usize> = None;
    let mut items: Vec<MenuItem> = Vec::new();
    let mut i: usize = 0;
    while i < sources.len()
        invariant
            i <= sources@.len(),
            items@.len() == i,
            d == opt_selection_ref(default),
            tv == tree_views(trees@),
            forall|k: int| 0 <= k < i ==> (#[trigger] items@[k])@ == source_item(sources@[k]@),
            match preselected {
                Some(p) => p < i && default_source(tv, d, 0) == Some(p as int),
                None => forall|k: int|
                    0 <= k < i && k < tv.len() ==> !leads_to_default(#[trigger] tv[k], d),
            },
        decreases sources@.len() - i,
    {
        let src = &sources[i];
        let mut detail = src.device.to_text();
        let state = match &src.state {
            SourceState::Mounted => {
                detail.append("");
                ItemState::Normal
            },
            SourceState::Encrypted => {
                detail.append(" [locked]");
                ItemState::Locked
            },
            SourceState::Error(e) => {
                detail.append(" [error]");
                ItemState::Error(e.clone())
            },
            SourceState::Static => {
                detail.append(" [static]");
                ItemState::Normal
            },
        };
        if preselected.is_none() && i < trees.len() {
            assert(tv[i as int] == node_views(trees@[i as int].1@));
            if let Some(sel) = default {
                if tree_contains_path(&trees[i].1, &sel.leaf_path) {
                    preselected = Some(i);
                    proof {
                        lemma_default_here(tv, d, 0, i as int);
                    }
                }
            }
        }
        items.push(MenuItem { label: src.label.clone(), detail, state });
        i = i + 1;
    }
    proof {
        if preselected is None {
            lemma_no_default_before(tv, d, 0, sources@.len() as int);
        }
        assert(views(items@) =~= source_views(sources@).map_values(
            |s: SourceView| source_item(s),
        ));
    }
    Menu::new(items, preselected)
}

/// The source whose tree holds the default leaf is the one that the menu starts
/// on.
pub proof fn menu_starts_on_default_source(
    sources: Seq<SourceView>,
    default: Option<SelectionView>,
    trees: Seq<Seq<TreeNodeView>>,
    i: int,
)
    requires
        default_source(trees, default, 0) == Some(i),
        i < sources.len(),
    ensures
        source_menu(sources, default, trees).cursor == i,
        leads_to_default(trees[i], default),
{
    lemma_no_default_before(trees, default, 0, 0);
}

/// A number of spaces.
pub open spec fn spaces(n: nat) -> Seq<char> {
    Seq::new(n, |i: int| ' ')
}

/// The item of a node of the tree.
pub open spec fn flat_item(n: FlatRow, default: Option<SelectionView>) -> ItemView {
    let indent = spaces((2 * n.depth) as nat);
    match n.kind {
        FlatKind::Dir { name } => ItemView {
            label: indent + name + "/"@,
            detail: Seq::empty(),
            state: Mark::Normal,
        },
        FlatKind::Leaf { name, entry_count, path } => ItemView {
            label: indent + name,
            detail: decimal(entry_count as nat) + " entries"@,
            state: if default matches Some(sel) && same_path(path, sel.leaf_path) {
                Mark::Default
            } else {
                Mark::Normal
            },
        },
    }
}

/// Whether a node is the default leaf.
pub open spec fn is_default_row(n: FlatRow, default: Option<SelectionView>) -> bool {
    default matches Some(sel) && n.kind matches FlatKind::Leaf { path, .. } && same_path(
        path,
        sel.leaf_path,
    )
}

/// The first row, from `from` on, that is the default leaf.
pub open spec fn default_row(
    rows: Seq<FlatRow>,
    default: Option<SelectionView>,
    from: int,
) -> Option<int>
    decreases rows.len() - from,
{
    if from < 0 || from >= rows.len() {
        None
    } else if is_default_row(rows[from], default) {
        Some(from)
    } else {
        default_row(rows, default, from + 1)
    }
}

/// The menu of a boot tree. The default leaf is pre-selected.
pub open spec fn tree_menu(rows: Seq<FlatRow>, default: Option<SelectionView>) -> MenuView {
    menu_of(
        rows.map_values(|n: FlatRow| flat_item(n, default)),
        default_row(rows, default, 0),
    )
}

fn indent_text(depth: usize) -> (r: String)
    ensures
        r@ == spaces((2 * depth) as nat),
{
    let mut s = String::new();
    let mut i: usize = 0;
    assert(s@ =~= spaces(0));
    while i < depth
        invariant
            i <= depth,
            s@ == spaces((2 * i) as nat),
        decreases depth - i,
    {
        s.append("  ");
        proof {
            reveal_strlit("  ");
        }
        i = i + 1;
        assert(s@ =~= spaces((2 * i) as nat));
    }
    s
}

/// Build a boot tree menu for a source.
pub fn build_tree_menu(tree: &Vec<TreeNode>, default: Option<&BootSelection>) -> (r: (
    Menu,
    Vec<FlatNode>,
))
    ensures
        views(r.1@) == flat_rows(node_views(tree@), 0),
        r.0@ == tree_menu(flat_rows(node_views(tree@), 0), opt_selection_ref(default)),
{
    let ghost d = opt_selection_ref(default);
    let mut flat: Vec<FlatNode> = Vec::new();
    flatten_into(&mut flat, tree, 0);
    let ghost rows = flat_rows(node_views(tree@), 0);
    assert(views(Seq::<FlatNode>::empty()) =~= Seq::<FlatRow>::empty());
    assert(views(flat@) =~= rows);
    let mut preselected: Option<usize> = None;
    let mut items: Vec<MenuItem> = Vec::new();
    let mut i: usize = 0;
    while i < flat.len()
        invariant
            i <= flat@.len(),
            items@.len() == i,
            d == opt_selection_ref(default),
            rows == views(flat@),
            forall|k: int| 0 <= k < i ==> (#[trigger] items@[k])@ == flat_item(rows[k], d),
            match preselected {
                Some(p) => default_row(rows, d, 0) == Some(p as int),
                None => default_row(rows, d, 0) == default_row(rows, d, i as int),
            },
        decreases flat@.len() - i,
    {
        let n = &flat[i];
        assert(rows[i as int] == n@);
        let mut label = indent_text(n.depth);
        match &n.kind {
            FlatNodeKind::Dir { name } => {
                label.append(name.as_str());
                label.append("/");
                let item = MenuItem { label, detail: String::new(), state: ItemState::Normal };
                assert(item@.detail =~= Seq::<char>::empty());
                items.push(item);
            },
            FlatNodeKind::Leaf { name, entry_count, path } => {
                label.append(name.as_str());
                let is_default = match default {
                    Some(sel) => path.is_same(&sel.leaf_path),
                    None => false,
                };
                let mut detail = String::new();
                push_decimal(&mut detail, *entry_count as u64);
                detail.append(" entries");
                assert(detail@ =~= decimal(*entry_count as nat) + " entries"@);
                let state = if is_default {
                    ItemState::Default
                } else {
                    ItemState::Normal
                };
                items.push(MenuItem { label, detail, state });
                if is_default && preselected.is_none() {
                    preselected = Some(i);
                }
            },
        }
        i = i + 1;
    }
    assert(views(items@) =~= rows.map_values(|n: FlatRow| flat_item(n, d)));
    (Menu::new(items, preselected), flat)
}

/// The place of the first entry, from `from` on, with the given name.
pub open spec fn entry_position(entries: Seq<EntryView>, name: Seq<char>, from: int) -> Option<int>
    decreases entries.len() - from,
{
    if from < 0 || from >= entries.len() {
        None
    } else if entries[from].name == name {
        Some(from)
    } else {
        entry_position(entries, name, from + 1)
    }
}

/// The place of the default entry in the leaf at the given path.
pub open spec fn default_entry(
    entries: Seq<EntryView>,
    default: Option<SelectionView>,
    leaf_path: Seq<u8>,
) -> Option<int> {
    match default {
        Some(sel) => if same_path(sel.leaf_path, leaf_path) {
            entry_position(entries, sel.entry_name, 0)
        } else {
            None
        },
        None => None,
    }
}

/// The menu of the entries of a leaf. The default entry is pre-selected.
pub open spec fn entry_menu(
    entries: Seq<EntryView>,
    default: Option<SelectionView>,
    leaf_path: Seq<u8>,
) -> MenuView {
    let chosen = default_entry(entries, default, leaf_path);
    menu_of(
        Seq::new(
            entries.len(),
            |i: int|
                ItemView {
                    label: entries[i].name,
                    detail: entries[i].cmdline,
                    state: if chosen == Some(i) {
                        Mark::Default
                    } else {
                        Mark::Normal
                    },
                },
        ),
        chosen,
    )
}

fn find_entry(entries: &[Entry], name: &String) -> (r: Option<usize>)
    ensures
        opt_int(r) == entry_position(views(entries@), name@, 0),
{
    let ghost ev = views(entries@);
    let mut i: usize = 0;
    while i < entries.len()
        invariant
            i <= entries@.len(),
            ev == views(entries@),
            entry_position(ev, name@, 0) == entry_position(ev, name@, i as int),
        decreases entries@.len() - i,
    {
        assert(ev[i as int] == entries@[i as int]@);
        if entries[i].name == *name {
            return Some(i);
        }
        i = i + 1;
    }
    None
}

/// Build an entry menu for a leaf.
pub fn build_entry_menu(
    entries: &[Entry],
    default: Option<&BootSelection>,
    leaf_path: &BootPath,
) -> (r: Menu)
    ensures
        r@ == entry_menu(views(entries@), opt_selection_ref(default), leaf_path@),
{
    let preselected = match default {
        Some(sel) => if sel.leaf_path.is_same(leaf_path) {
            find_entry(entries, &sel.entry_name)
        } else {
            None
        },
        None => None,
    };
    let ghost wanted = entry_menu(views(entries@), opt_selection_ref(default), leaf_path@);
    let mut items: Vec<MenuItem> = Vec::new();
    let mut i: usize = 0;
    while i < entries.len()
        invariant
            i <= entries@.len(),
            items@.len() == i,
            wanted == entry_menu(views(entries@), opt_selection_ref(default), leaf_path@),
            opt_int(preselected) == default_entry(
                views(entries@),
                opt_selection_ref(default),
                leaf_path@,
            ),
            forall|k: int| 0 <= k < i ==> (#[trigger] items@[k])@ == wanted.items[k],
        decreases entries@.len() - i,
    {
        let e = &entries[i];
        let is_default = match preselected {
            Some(p) => p == i,
            None => false,
        };
        let state = if is_default {
            ItemState::Default
        } else {
            ItemState::Normal
        };
        items.push(MenuItem { label: e.name.clone(), detail: e.cmdline.clone(), state });
        assert(views(entries@)[i as int] == e@);
        i = i + 1;
    }
    assert(views(items@) =~= wanted.items);
    Menu::new(items, preselected)
}

// --- Bootable file detection ---

/// Whether the start of a file is that of a bootable kernel image: an EFI binary
/// ("MZ" at the start) or a bzImage ("HdrS" at 0x202).
pub open spec fn is_bootable(head: Seq<u8>) -> bool {
    ||| head.len() >= 2 && head[0] == 0x4D && head[1] == 0x5A
    ||| head.len() >= 0x206 && head[0x202] == 0x48 && head[0x203] == 0x64 && head[0x204] == 0x72
        && head[0x205] == 0x53
}

/// How much of a file is looked at to tell whether it can be booted.
pub const HEAD_SIZE: usize = 518;

/// Check if a file is a bootable kernel image (PE/EFI stub or bzImage), given its
/// first bytes.
pub fn is_bootable_file(head: &[u8]) -> (r: bool)
    ensures
        r == is_bootable(head@),
{
    if head.len() >= 2 && head[0] == 0x4D && head[1] == 0x5A {
        return true;
    }
    head.len() >= 0x206 && head[0x202] == 0x48 && head[0x203] == 0x64 && head[0x204] == 0x72
        && head[0x205] == 0x53
}

// --- File browser ---

/// An entry in a directory listing for the file browser.
#[derive(Debug)]
pub struct DirEntry {
    pub name: String,
    pub is_dir: bool,
    /// Whether it is a directory with an entries.json.
    pub is_leaf: bool,
    pub is_bootable: bool,
    pub path: BootPath,
}

/// The model of an entry in a directory listing.
pub struct DirEntryView {
    pub name: Seq<char>,
    pub is_dir: bool,
    pub is_leaf: bool,
    pub is_bootable: bool,
    pub path: Seq<u8>,
}

impl View for DirEntry {
    type V = DirEntryView;

    open spec fn view(&self) -> DirEntryView {
        DirEntryView {
            name: self.name@,
            is_dir: self.is_dir,
            is_leaf: self.is_leaf,
            is_bootable: self.is_bootable,
            path: self.path@,
        }
    }
}

/// What is found in a directory: the name, whether it is a directory if that
/// could be told, whether there is an entries.json in it, and the first bytes if it
/// can be read as a file.
#[derive(Debug)]
pub struct ListedFile {
    pub name: Vec<u8>,
    pub is_dir: Result<bool, IoFailure>,
    pub is_leaf: bool,
    pub head: Vec<u8>,
}

/// The model of what is found in a directory.
pub struct ListedView {
    pub name: Seq<u8>,
    pub is_dir: Result<bool, ErrorView>,
    pub is_leaf: bool,
    pub head: Seq<u8>,
}

impl View for ListedFile {
    type V = ListedView;

    open spec fn view(&self) -> ListedView {
        ListedView {
            name: self.name@,
            is_dir: match self.is_dir {
                Ok(b) => Ok(b),
                Err(f) => Err(io_error(f)),
            },
            is_leaf: self.is_leaf,
            head: self.head@,
        }
    }
}

/// Files are listed in the order of their names, byte by byte.
pub open spec fn file_order() -> spec_fn(ListedView, ListedView) -> bool {
    |a: ListedView, b: ListedView| bytes_before(a.name, b.name)
}

impl Ranked for ListedFile {
    open spec fn order() -> spec_fn(ListedView, ListedView) -> bool {
        file_order()
    }

    fn goes_before(&self, other: &Self) -> (r: bool) {
        bytes_go_before(self.name.as_slice(), other.name.as_slice())
    }
}

/// The first failure in a listing.
pub open spec fn first_failure(s: Seq<ListedView>, from: int) -> Option<ErrorView>
    decreases s.len() - from,
{
    if from < 0 || from >= s.len() {
        None
    } else {
        match s[from].is_dir {
            Err(e) => Some(e),
            Ok(_) => first_failure(s, from + 1),
        }
    }
}

/// The entry for what was found in the directory `dir`.
pub open spec fn dir_entry(dir: Seq<u8>, f: ListedView) -> DirEntryView {
    DirEntryView {
        name: utf8_lossy(f.name),
        is_dir: f.is_dir->Ok_0,
        is_leaf: f.is_dir->Ok_0 && f.is_leaf,
        is_bootable: !f.is_dir->Ok_0 && is_bootable(f.head),
        path: joined(dir, f.name),
    }
}

/// The item of a directory entry.
pub open spec fn file_item(e: DirEntryView) -> ItemView {
    ItemView {
        label: if e.is_dir {
            e.name + "/"@
        } else {
            e.name
        },
        detail: if e.is_bootable {
            "[bootable]"@
        } else {
            Seq::empty()
        },
        state: Mark::Normal,
    }
}

/// The entries of a directory, sorted by name, or why it cannot be listed.
pub open spec fn dir_entries_of(
    dir: Seq<u8>,
    listing: Result<Vec<ListedFile>, IoFailure>,
) -> Result<Seq<DirEntryView>, ErrorView> {
    match listing {
        Err(f) => Err(io_error(f)),
        Ok(files) => {
            let s = sorted(views(files@), file_order());
            match first_failure(s, 0) {
                Some(e) => Err(e),
                None => Ok(s.map_values(|f: ListedView| dir_entry(dir, f))),
            }
        },
    }
}

/// The menu of a directory.
pub open spec fn file_menu(entries: Seq<DirEntryView>) -> MenuView {
    menu_of(entries.map_values(|e: DirEntryView| file_item(e)), None)
}

/// Build a menu for the file browser from the contents of a directory.
pub fn build_file_menu(dir: &BootPath, listing: Result<Vec<ListedFile>, IoFailure>) -> (r: Result<
    (Menu, Vec<DirEntry>),
    Error,
>)
    ensures
        match r {
            Ok((menu, entries)) => dir_entries_of(dir@, listing) == Ok::<
                Seq<DirEntryView>,
                ErrorView,
            >(views(entries@)) && menu@ == file_menu(views(entries@)),
            Err(e) => dir_entries_of(dir@, listing) == Err::<Seq<DirEntryView>, ErrorView>(e@),
        },
{
    let files = match listing {
        Ok(files) => files,
        Err(f) => {
            return Err(Error::Io(f));
        },
    };
    let files = stable_sort(files);
    let ghost s = views(files@);
    let mut entries: Vec<DirEntry> = Vec::new();
    let mut items: Vec<MenuItem> = Vec::new();
    let mut i: usize = 0;
    while i < files.len()
        invariant
            i <= files@.len(),
            s == views(files@),
            listing matches Ok(l) && s == sorted(views(l@), file_order()),
            entries@.len() == i,
            items@.len() == i,
            first_failure(s, 0) == first_failure(s, i as int),
            forall|k: int| 0 <= k < i ==> (#[trigger] entries@[k])@ == dir_entry(dir@, s[k]),
            forall|k: int| 0 <= k < i ==> (#[trigger] items@[k])@ == file_item(entries@[k]@),
        decreases files@.len() - i,
    {
        let f = &files[i];
        assert(s[i as int] == f@);
        let is_dir = match &f.is_dir {
            Ok(b) => *b,
            Err(e) => {
                return Err(Error::Io(IoFailure { code: e.code, message: e.message.clone() }));
            },
        };
        let is_bootable = !is_dir && is_bootable_file(f.head.as_slice());
        let name = lossy_text(f.name.as_slice());
        let mut label = name.clone();
        if is_dir {
            label.append("/");
        }
        let detail = if is_bootable {
            "[bootable]".to_owned()
        } else {
            String::new()
        };
        let entry = DirEntry {
            name,
            is_dir,
            is_leaf: is_dir && f.is_leaf,
            is_bootable,
            path: dir.join(f.name.as_slice()),
        };
        let item = MenuItem { label, detail, state: ItemState::Normal };
        proof {
            if !is_bootable {
                assert(item@.detail =~= Seq::<char>::empty());
            }
        }
        entries.push(entry);
        items.push(item);
        i = i + 1;
    }
    assert(views(entries@) =~= s.map_values(|f: ListedView| dir_entry(dir@, f)));
    assert(views(items@) =~= views(entries@).map_values(|e: DirEntryView| file_item(e)));
    Ok((Menu::new(items, None), entries))
}

} // verus!
