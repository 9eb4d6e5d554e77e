//! How what can be booted is reached: properties of the default selection, the
//! tree view and the countdown taken together.

use vstd::prelude::*;

use crate::boot::{
    all_sources, all_trees, auto_boot, default_boot, leaf_at, leaf_with_path, source_tree,
    static_views, ResultView,
};
use crate::path::same_path;
use crate::select::{
    all_leaves, default_exists, default_selection, entry_named, has_entry, leaves, node_leaves,
};
use crate::tree::{DirItem, StaticSource};
use crate::treeview::{
    built, cursor_starts_on_default, default_can_be_seen, default_source, entry_row, is_above,
    is_bare, is_default_leaf, last_default, leads_to_default, leaf_rows, lemma_source_above,
    lemma_source_at_alike, lemma_tree_rows, node_rows, same_but_visibility, shown, shown_state,
    source_at, source_rows, sources_rows, tree_rows, Row, RowKind,
};
use crate::types::{
    source_views, EntryView, IoFailure, LeafView, SelectionView, Source, SourceView, TreeNode,
    TreeNodeView,
};

verus! {

/// Whether no two leaves have the same path.
pub open spec fn paths_differ(s: Seq<LeafView>) -> bool {
    forall|i: int, j: int|
        #![trigger s[i], s[j]]
        0 <= i < s.len() && 0 <= j < s.len() && i != j ==> !same_path(s[i].path, s[j].path)
}

proof fn lemma_only_leaf(s: Seq<LeafView>, k: int, from: int)
    requires
        paths_differ(s),
        0 <= from <= k < s.len(),
    ensures
        leaf_with_path(s, s[k].path, from) == Some(s[k]),
    decreases k - from,
{
    if from < k {
        assert(!same_path(s[from].path, s[k].path));
        lemma_only_leaf(s, k, from + 1);
    }
}

proof fn lemma_entry_found(entries: Seq<EntryView>, k: int, from: int)
    requires
        0 <= from <= k < entries.len(),
    ensures
        entry_named(entries, entries[k].name, from) matches Some(e) && e.name == entries[k].name,
    decreases k - from,
{
    if from < k && entries[from].name != entries[k].name {
        lemma_entry_found(entries, k, from + 1);
    }
}

/// The default selection can be booted without asking: it names a leaf of the
/// trees and an entry of it, where no two leaves have the same path.
pub proof fn default_can_be_booted(
    trees: Seq<Seq<TreeNodeView>>,
    efi_var: Option<SelectionView>,
    sel: SelectionView,
)
    requires
        default_selection(trees, efi_var) == Some(sel),
        paths_differ(all_leaves(trees)),
    ensures
        auto_boot(trees, Some(sel)) matches Ok((path, entry)) && path == sel.leaf_path
            && entry.name == sel.entry_name,
{
    let all = all_leaves(trees);
    default_exists(trees, efi_var);
    let leaf = choose|leaf: LeafView|
        #[trigger] all_leaves(trees).contains(leaf) && leaf.path == sel.leaf_path && has_entry(
            leaf,
            sel.entry_name,
        );
    let k = choose|k: int| 0 <= k < all.len() && all[k] == leaf;
    lemma_only_leaf(all, k, 0);
    let j = choose|j: int|
        0 <= j < leaf.entries.len() && (#[trigger] leaf.entries[j]).name == sel.entry_name;
    lemma_entry_found(leaf.entries, j, 0);
}

/// Whether an entry belongs to one of the leaves, the one with the given path.
pub open spec fn is_entry_of(all: Seq<LeafView>, path: Seq<u8>, entry: EntryView) -> bool {
    exists|k: int|
        0 <= k < all.len() && (#[trigger] all[k]).path == path && all[k].entries.contains(entry)
}

/// Whether the row of an entry is below the row of its leaf, and is the default
/// only if both are those of the default selection.
pub open spec fn is_in_place(
    rows: Seq<Row>,
    i: int,
    all: Seq<LeafView>,
    default: Option<SelectionView>,
) -> bool {
    rows[i].kind matches RowKind::Entry { entry, source_idx } ==> {
        &&& leaf_at(rows, i) matches Some(path) && is_entry_of(all, path, entry)
        &&& rows[i].is_default ==> (default matches Some(sel) && same_path(
            leaf_at(rows, i)->0,
            sel.leaf_path,
        ) && entry.name == sel.entry_name)
    }
}

/// Whether the rows of all entries are in their places.
pub open spec fn are_in_place(
    rows: Seq<Row>,
    all: Seq<LeafView>,
    default: Option<SelectionView>,
) -> bool {
    forall|i: int| 0 <= i < rows.len() ==> #[trigger] is_in_place(rows, i, all, default)
}

proof fn lemma_leaf_at_front(a: Seq<Row>, b: Seq<Row>, i: int)
    requires
        i < a.len(),
    ensures
        leaf_at(a + b, i) == leaf_at(a, i),
    decreases i + 1,
{
    if i >= 0 {
        assert((a + b)[i] == a[i]);
        lemma_leaf_at_front(a, b, i - 1);
    }
}

proof fn lemma_leaf_at_back(a: Seq<Row>, b: Seq<Row>, i: int)
    requires
        0 <= i < b.len(),
    ensures
        leaf_at(b, i) is Some ==> leaf_at(a + b, a.len() + i) == leaf_at(b, i),
    decreases i + 1,
{
    assert((a + b)[a.len() + i] == b[i]);
    if i > 0 {
        lemma_leaf_at_back(a, b, i - 1);
    }
}

proof fn lemma_entry_of_more(
    some: Seq<LeafView>,
    all: Seq<LeafView>,
    path: Seq<u8>,
    entry: EntryView,
)
    requires
        is_entry_of(some, path, entry),
        forall|k: int| 0 <= k < some.len() ==> all.contains(#[trigger] some[k]),
    ensures
        is_entry_of(all, path, entry),
{
    let k = choose|k: int|
        0 <= k < some.len() && (#[trigger] some[k]).path == path && some[k].entries.contains(
            entry,
        );
    assert(all.contains(some[k]));
    let j = choose|j: int| 0 <= j < all.len() && all[j] == some[k];
    assert(all[j].path == path && all[j].entries.contains(entry));
}

proof fn lemma_in_place_apart(
    a: Seq<Row>,
    b: Seq<Row>,
    la: Seq<LeafView>,
    lb: Seq<LeafView>,
    default: Option<SelectionView>,
)
    requires
        are_in_place(a, la, default),
        are_in_place(b, lb, default),
    ensures
        are_in_place(a + b, la + lb, default),
{
    let c = a + b;
    let all = la + lb;
    assert forall|k: int| 0 <= k < la.len() implies all.contains(#[trigger] la[k]) by {
        assert(all[k] == la[k]);
    }
    assert forall|k: int| 0 <= k < lb.len() implies all.contains(#[trigger] lb[k]) by {
        assert(all[la.len() + k] == lb[k]);
    }
    assert forall|i: int| 0 <= i < c.len() implies #[trigger] is_in_place(c, i, all, default) by {
        if i < a.len() {
            assert(is_in_place(a, i, la, default));
            assert(c[i] == a[i]);
            lemma_leaf_at_front(a, b, i);
            if let RowKind::Entry { entry, source_idx } = c[i].kind {
                lemma_entry_of_more(la, all, leaf_at(a, i)->0, entry);
            }
        } else {
            let j = i - a.len();
            assert(is_in_place(b, j, lb, default));
            assert(c[i] == b[j]);
            lemma_leaf_at_back(a, b, j);
            if let RowKind::Entry { entry, source_idx } = c[i].kind {
                lemma_entry_of_more(lb, all, leaf_at(b, j)->0, entry);
            }
        }
    }
}

proof fn lemma_leaf_rows_in_place(
    leaf: LeafView,
    depth: int,
    source_idx: int,
    default: Option<SelectionView>,
)
    ensures
        are_in_place(leaf_rows(leaf, depth, source_idx, default), seq![leaf], default),
{
    let rows = leaf_rows(leaf, depth, source_idx, default);
    let all = seq![leaf];
    assert forall|i: int| 0 <= i < rows.len() implies #[trigger] is_in_place(
        rows,
        i,
        all,
        default,
    ) by {
        if i > 0 {
            assert(rows[i] == entry_row(leaf, i - 1, depth + 1, source_idx, default));
            lemma_leaf_of_entry(rows, i);
            assert(leaf.entries.contains(leaf.entries[i - 1]));
            assert(all[0].path == leaf.path && all[0].entries.contains(leaf.entries[i - 1]));
            assert(is_entry_of(all, leaf.path, leaf.entries[i - 1]));
        }
    }
}

proof fn lemma_leaf_of_entry(rows: Seq<Row>, i: int)
    requires
        0 <= i < rows.len(),
        rows[0].kind is Leaf,
        forall|k: int| 0 < k < rows.len() ==> (#[trigger] rows[k]).kind is Entry,
    ensures
        leaf_at(rows, i) == Some(rows[0].kind->path),
    decreases i,
{
    if i > 0 {
        lemma_leaf_of_entry(rows, i - 1);
    }
}

proof fn lemma_node_rows_in_place(
    n: TreeNodeView,
    depth: int,
    source_idx: int,
    default: Option<SelectionView>,
)
    ensures
        are_in_place(node_rows(n, depth, source_idx, default), node_leaves(n), default),
    decreases n,
{
    match n {
        TreeNodeView::Dir { name, children } => {
            lemma_tree_rows_in_place(children, depth + 1, source_idx, default);
            let rows = node_rows(n, depth, source_idx, default);
            let head = seq![rows[0]];
            let below = tree_rows(children, depth + 1, source_idx, default);
            let none = Seq::<LeafView>::empty();
            assert(rows =~= head + below);
            assert forall|i: int| 0 <= i < head.len() implies #[trigger] is_in_place(
                head,
                i,
                none,
                default,
            ) by {}
            lemma_in_place_apart(head, below, none, leaves(children), default);
            assert(none + leaves(children) =~= leaves(children));
        },
        TreeNodeView::Leaf(leaf) => {
            lemma_leaf_rows_in_place(leaf, depth, source_idx, default);
        },
    }
}

proof fn lemma_tree_rows_in_place(
    nodes: Seq<TreeNodeView>,
    depth: int,
    source_idx: int,
    default: Option<SelectionView>,
)
    ensures
        are_in_place(tree_rows(nodes, depth, source_idx, default), leaves(nodes), default),
    decreases nodes,
{
    if nodes.len() > 0 {
        let init = nodes.drop_last();
        let last = nodes[nodes.len() - 1];
        lemma_tree_rows_in_place(init, depth, source_idx, default);
        lemma_node_rows_in_place(last, depth, source_idx, default);
        lemma_in_place_apart(
            tree_rows(init, depth, source_idx, default),
            node_rows(last, depth, source_idx, default),
            leaves(init),
            node_leaves(last),
            default,
        );
    }
}

proof fn lemma_tree_in_all(trees: Seq<Seq<TreeNodeView>>, i: int)
    requires
        0 <= i < trees.len(),
    ensures
        forall|k: int|
            0 <= k < leaves(trees[i]).len() ==> all_leaves(trees).contains(
                #[trigger] leaves(trees[i])[k],
            ),
    decreases trees.len(),
{
    let init = trees.drop_last();
    let all = all_leaves(trees);
    let some = leaves(trees[i]);
    if i < trees.len() - 1 {
        lemma_tree_in_all(init, i);
        assert(init[i] == trees[i]);
        assert forall|k: int| 0 <= k < some.len() implies all.contains(#[trigger] some[k]) by {
            let before = all_leaves(init);
            assert(before.contains(leaves(init[i])[k]));
            let j = choose|j: int| 0 <= j < before.len() && before[j] == some[k];
            assert(all[j] == some[k]);
        }
    } else {
        assert forall|k: int| 0 <= k < some.len() implies all.contains(#[trigger] some[k]) by {
            assert(all[all_leaves(init).len() + k] == some[k]);
        }
    }
}

proof fn lemma_in_place_more(
    rows: Seq<Row>,
    some: Seq<LeafView>,
    all: Seq<LeafView>,
    default: Option<SelectionView>,
)
    requires
        are_in_place(rows, some, default),
        forall|k: int| 0 <= k < some.len() ==> all.contains(#[trigger] some[k]),
    ensures
        are_in_place(rows, all, default),
{
    assert forall|i: int| 0 <= i < rows.len() implies #[trigger] is_in_place(
        rows,
        i,
        all,
        default,
    ) by {
        assert(is_in_place(rows, i, some, default));
        if let RowKind::Entry { entry, source_idx } = rows[i].kind {
            lemma_entry_of_more(some, all, leaf_at(rows, i)->0, entry);
        }
    }
}

proof fn lemma_source_rows_in_place(
    source: SourceView,
    i: int,
    trees: Seq<Seq<TreeNodeView>>,
    default: Option<SelectionView>,
)
    requires
        0 <= i,
    ensures
        are_in_place(source_rows(source, i, trees, default), all_leaves(trees), default),
{
    let rows = source_rows(source, i, trees, default);
    let head = seq![rows[0]];
    let none = Seq::<LeafView>::empty();
    assert forall|k: int| 0 <= k < head.len() implies #[trigger] is_in_place(
        head,
        k,
        none,
        default,
    ) by {}
    let state = shown_state(source.state, is_bare(trees, i));
    if state is Mounted || state is Static {
        let below = tree_rows(trees[i], 1, i, default);
        lemma_tree_rows_in_place(trees[i], 1, i, default);
        lemma_in_place_apart(head, below, none, leaves(trees[i]), default);
        assert(none + leaves(trees[i]) =~= leaves(trees[i]));
        assert(rows =~= head + below);
        lemma_tree_in_all(trees, i);
        lemma_in_place_more(rows, leaves(trees[i]), all_leaves(trees), default);
    } else {
        assert(rows =~= head);
        lemma_in_place_more(rows, none, all_leaves(trees), default);
    }
}

proof fn lemma_sources_rows_in_place(
    sources: Seq<SourceView>,
    trees: Seq<Seq<TreeNodeView>>,
    default: Option<SelectionView>,
    n: int,
)
    ensures
        are_in_place(sources_rows(sources, trees, default, n), all_leaves(trees), default),
    decreases n,
{
    if n > 0 {
        let all = all_leaves(trees);
        lemma_sources_rows_in_place(sources, trees, default, n - 1);
        lemma_source_rows_in_place(sources[n - 1], n - 1, trees, default);
        let a = sources_rows(sources, trees, default, n - 1);
        let b = source_rows(sources[n - 1], n - 1, trees, default);
        lemma_in_place_apart(a, b, all, all, default);
        assert forall|k: int| 0 <= k < (all + all).len() implies all.contains(
            #[trigger] (all + all)[k],
        ) by {
            if k < all.len() {
                assert((all + all)[k] == all[k]);
            } else {
                assert((all + all)[k] == all[k - all.len()]);
            }
        }
        lemma_in_place_more(a + b, all + all, all, default);
    }
}

proof fn lemma_leaf_at_alike(a: Seq<Row>, b: Seq<Row>, i: int)
    requires
        a.len() == b.len(),
        forall|k: int| 0 <= k < a.len() ==> (#[trigger] a[k]).kind == b[k].kind,
    ensures
        leaf_at(a, i) == leaf_at(b, i),
    decreases i + 1,
{
    if 0 <= i < a.len() {
        assert(a[i].kind == b[i].kind);
        lemma_leaf_at_alike(a, b, i - 1);
    }
}

/// In a view that was built, what is booted from the row of an entry is that entry
/// of its own leaf, and the default rows are those of the default selection.
pub proof fn entries_boot_from_their_leaf(
    sources: Seq<SourceView>,
    trees: Seq<Seq<TreeNodeView>>,
    default: Option<SelectionView>,
)
    ensures
        are_in_place(built(sources, trees, default).rows, all_leaves(trees), default),
{
    let raw = sources_rows(sources, trees, default, sources.len() as int);
    let rows = built(sources, trees, default).rows;
    let all = all_leaves(trees);
    lemma_sources_rows_in_place(sources, trees, default, sources.len() as int);
    assert forall|i: int| 0 <= i < rows.len() implies #[trigger] is_in_place(
        rows,
        i,
        all,
        default,
    ) by {
        assert(is_in_place(raw, i, all, default));
        lemma_leaf_at_alike(rows, raw, i);
    }
}

proof fn lemma_default_boot(
    rows: Seq<Row>,
    all: Seq<LeafView>,
    sel: SelectionView,
    from: int,
)
    requires
        are_in_place(rows, all, Some(sel)),
        0 <= from,
    ensures
        default_boot(rows, from) matches Some(r) ==> (r matches ResultView::Boot {
            leaf_path,
            entry,
            source_idx,
        } && same_path(leaf_path, sel.leaf_path) && entry.name == sel.entry_name && is_entry_of(
            all,
            leaf_path,
            entry,
        )),
    decreases rows.len() - from,
{
    if from < rows.len() {
        assert(is_in_place(rows, from, all, Some(sel)));
        lemma_default_boot(rows, all, sel, from + 1);
    }
}

/// When the countdown is over, what is booted is the entry of the default
/// selection, in its leaf.
pub proof fn countdown_boots_default(
    sources: Seq<SourceView>,
    trees: Seq<Seq<TreeNodeView>>,
    sel: SelectionView,
)
    ensures
        default_boot(built(sources, trees, Some(sel)).rows, 0) matches Some(r) ==> (r matches
            ResultView::Boot { leaf_path, entry, source_idx } && same_path(
            leaf_path,
            sel.leaf_path,
        ) && entry.name == sel.entry_name && is_entry_of(all_leaves(trees), leaf_path, entry)),
{
    entries_boot_from_their_leaf(sources, trees, Some(sel));
    lemma_default_boot(built(sources, trees, Some(sel)).rows, all_leaves(trees), sel, 0);
}

// --- Nothing is left out ---

/// Whether row `r` is that of entry `k` of a leaf, below the row of that leaf, and
/// marked as the default if it is.
pub open spec fn is_entry_row(
    rows: Seq<Row>,
    r: int,
    leaf: LeafView,
    k: int,
    source_idx: int,
    default: Option<SelectionView>,
) -> bool {
    &&& 0 <= r < rows.len()
    &&& rows[r].kind == (RowKind::Entry { entry: leaf.entries[k], source_idx })
    &&& leaf_at(rows, r) == Some(leaf.path)
    &&& rows[r].is_default == (is_default_leaf(leaf, default) && leaf.entries[k].name
        == default->0.entry_name)
}

/// Whether there is a row for entry `k` of a leaf.
pub open spec fn has_entry_row(
    rows: Seq<Row>,
    leaf: LeafView,
    k: int,
    source_idx: int,
    default: Option<SelectionView>,
) -> bool {
    exists|r: int| #[trigger] is_entry_row(rows, r, leaf, k, source_idx, default)
}

proof fn lemma_entry_row_front(
    a: Seq<Row>,
    b: Seq<Row>,
    leaf: LeafView,
    k: int,
    source_idx: int,
    default: Option<SelectionView>,
)
    requires
        has_entry_row(a, leaf, k, source_idx, default),
    ensures
        has_entry_row(a + b, leaf, k, source_idx, default),
{
    let r = choose|r: int| #[trigger] is_entry_row(a, r, leaf, k, source_idx, default);
    lemma_leaf_at_front(a, b, r);
    assert((a + b)[r] == a[r]);
    assert(is_entry_row(a + b, r, leaf, k, source_idx, default));
}

proof fn lemma_entry_row_back(
    a: Seq<Row>,
    b: Seq<Row>,
    leaf: LeafView,
    k: int,
    source_idx: int,
    default: Option<SelectionView>,
)
    requires
        has_entry_row(b, leaf, k, source_idx, default),
    ensures
        has_entry_row(a + b, leaf, k, source_idx, default),
{
    let r = choose|r: int| #[trigger] is_entry_row(b, r, leaf, k, source_idx, default);
    lemma_leaf_at_back(a, b, r);
    assert((a + b)[a.len() + r] == b[r]);
    assert(is_entry_row(a + b, a.len() + r, leaf, k, source_idx, default));
}

proof fn lemma_node_shows(
    n: TreeNodeView,
    depth: int,
    source_idx: int,
    default: Option<SelectionView>,
    m: int,
    k: int,
)
    requires
        0 <= m < node_leaves(n).len(),
        0 <= k < node_leaves(n)[m].entries.len(),
    ensures
        has_entry_row(
            node_rows(n, depth, source_idx, default),
            node_leaves(n)[m],
            k,
            source_idx,
            default,
        ),
    decreases n,
{
    let rows = node_rows(n, depth, source_idx, default);
    match n {
        TreeNodeView::Dir { name, children } => {
            lemma_tree_shows(children, depth + 1, source_idx, default, m, k);
            let below = tree_rows(children, depth + 1, source_idx, default);
            lemma_entry_row_back(
                seq![rows[0]],
                below,
                node_leaves(n)[m],
                k,
                source_idx,
                default,
            );
            assert(rows =~= seq![rows[0]] + below);
        },
        TreeNodeView::Leaf(leaf) => {
            assert(rows == leaf_rows(leaf, depth, source_idx, default));
            assert(rows[k + 1] == entry_row(leaf, k, depth + 1, source_idx, default));
            lemma_leaf_of_entry(rows, k + 1);
            assert(is_entry_row(rows, k + 1, leaf, k, source_idx, default));
        },
    }
}

proof fn lemma_tree_shows(
    nodes: Seq<TreeNodeView>,
    depth: int,
    source_idx: int,
    default: Option<SelectionView>,
    m: int,
    k: int,
)
    requires
        0 <= m < leaves(nodes).len(),
        0 <= k < leaves(nodes)[m].entries.len(),
    ensures
        has_entry_row(
            tree_rows(nodes, depth, source_idx, default),
            leaves(nodes)[m],
            k,
            source_idx,
            default,
        ),
    decreases nodes,
{
    let init = nodes.drop_last();
    let last = nodes[nodes.len() - 1];
    let a = tree_rows(init, depth, source_idx, default);
    let b = node_rows(last, depth, source_idx, default);
    if m < leaves(init).len() {
        lemma_tree_shows(init, depth, source_idx, default, m, k);
        lemma_entry_row_front(a, b, leaves(nodes)[m], k, source_idx, default);
    } else {
        lemma_node_shows(last, depth, source_idx, default, m - leaves(init).len(), k);
        lemma_entry_row_back(a, b, leaves(nodes)[m], k, source_idx, default);
    }
}

/// Whether the tree of a source is shown.
pub open spec fn is_open_source(source: SourceView) -> bool {
    source.state is Mounted || source.state is Static
}

proof fn lemma_sources_show(
    sources: Seq<SourceView>,
    trees: Seq<Seq<TreeNodeView>>,
    default: Option<SelectionView>,
    n: int,
    i: int,
    m: int,
    k: int,
)
    requires
        0 <= i < n,
        i < trees.len(),
        is_open_source(sources[i]),
        0 <= m < leaves(trees[i]).len(),
        0 <= k < leaves(trees[i])[m].entries.len(),
    ensures
        has_entry_row(
            sources_rows(sources, trees, default, n),
            leaves(trees[i])[m],
            k,
            i,
            default,
        ),
    decreases n,
{
    let leaf = leaves(trees[i])[m];
    let a = sources_rows(sources, trees, default, n - 1);
    let b = source_rows(sources[n - 1], n - 1, trees, default);
    if i < n - 1 {
        lemma_sources_show(sources, trees, default, n - 1, i, m, k);
        lemma_entry_row_front(a, b, leaf, k, i, default);
    } else {
        lemma_tree_shows(trees[i], 1, i, default, m, k);
        let below = tree_rows(trees[i], 1, i, default);
        lemma_entry_row_back(seq![b[0]], below, leaf, k, i, default);
        assert(b =~= seq![b[0]] + below);
        lemma_entry_row_back(a, b, leaf, k, i, default);
    }
}

/// Every entry of every leaf in the tree of a mounted or static source has a row in
/// the tree view.
pub proof fn every_entry_is_shown(
    sources: Seq<SourceView>,
    trees: Seq<Seq<TreeNodeView>>,
    default: Option<SelectionView>,
    i: int,
    m: int,
    k: int,
)
    requires
        0 <= i < sources.len(),
        i < trees.len(),
        is_open_source(sources[i]),
        0 <= m < leaves(trees[i]).len(),
        0 <= k < leaves(trees[i])[m].entries.len(),
    ensures
        has_entry_row(
            built(sources, trees, default).rows,
            leaves(trees[i])[m],
            k,
            i,
            default,
        ),
{
    let n = sources.len() as int;
    let leaf = leaves(trees[i])[m];
    let raw = sources_rows(sources, trees, default, n);
    let rows = built(sources, trees, default).rows;
    lemma_sources_show(sources, trees, default, n, i, m, k);
    let r = choose|r: int| #[trigger] is_entry_row(raw, r, leaf, k, i, default);
    lemma_leaf_at_alike(rows, raw, r);
    assert(is_entry_row(rows, r, leaf, k, i, default));
}

/// Whether row `r` is the top row of source `i`, and can be seen.
pub open spec fn is_source_row(
    rows: Seq<Row>,
    r: int,
    sources: Seq<SourceView>,
    trees: Seq<Seq<TreeNodeView>>,
    i: int,
) -> bool {
    &&& 0 <= r < rows.len()
    &&& rows[r].depth == 0
    &&& rows[r].visible
    &&& rows[r].kind == (RowKind::Source {
        idx: i,
        label: sources[i].label,
        state: shown_state(sources[i].state, is_bare(trees, i)),
    })
}

proof fn lemma_source_row(
    sources: Seq<SourceView>,
    trees: Seq<Seq<TreeNodeView>>,
    default: Option<SelectionView>,
    n: int,
    i: int,
) -> (r: int)
    requires
        0 <= i < n,
    ensures
        is_source_row(sources_rows(sources, trees, default, n), r, sources, trees, i),
    decreases n,
{
    let a = sources_rows(sources, trees, default, n - 1);
    let b = source_rows(sources[n - 1], n - 1, trees, default);
    if i < n - 1 {
        let r = lemma_source_row(sources, trees, default, n - 1, i);
        assert((a + b)[r] == a[r]);
        r
    } else {
        assert((a + b)[a.len() as int] == b[0]);
        a.len() as int
    }
}

proof fn lemma_depths(
    sources: Seq<SourceView>,
    trees: Seq<Seq<TreeNodeView>>,
    default: Option<SelectionView>,
    n: int,
)
    ensures
        ({
            let rows = sources_rows(sources, trees, default, n);
            forall|i: int| 0 <= i < rows.len() ==> (#[trigger] rows[i]).depth >= 0
        }),
    decreases n,
{
    if n > 0 {
        lemma_depths(sources, trees, default, n - 1);
        let a = sources_rows(sources, trees, default, n - 1);
        let b = source_rows(sources[n - 1], n - 1, trees, default);
        let rows = sources_rows(sources, trees, default, n);
        lemma_tree_rows(trees[n - 1], 1, n - 1, default);
        assert forall|i: int| 0 <= i < rows.len() implies (#[trigger] rows[i]).depth >= 0 by {
            if i < a.len() {
                assert(rows[i] == a[i]);
            } else {
                assert(rows[i] == b[i - a.len()]);
                if i > a.len() {
                    assert(b[i - a.len()] == tree_rows(trees[n - 1], 1, n - 1, default)[i - a.len()
                        - 1]);
                }
            }
        }
    }
}

/// Every source has a row of its own at the top of the tree view, whatever its
/// state, and that row can be seen.
pub proof fn every_source_is_shown(
    sources: Seq<SourceView>,
    trees: Seq<Seq<TreeNodeView>>,
    default: Option<SelectionView>,
    i: int,
)
    requires
        0 <= i < sources.len(),
    ensures
        exists|r: int| #[trigger]
            is_source_row(built(sources, trees, default).rows, r, sources, trees, i),
{
    let n = sources.len() as int;
    let raw = sources_rows(sources, trees, default, n);
    let rows = built(sources, trees, default).rows;
    let r = lemma_source_row(sources, trees, default, n, i);
    lemma_depths(sources, trees, default, n);
    assert forall|j: int| #[trigger] is_above(raw, j, r) implies false by {
        assert(raw[r].depth > raw[j].depth);
        assert(raw[j].depth >= 0);
    }
    assert(rows[r].visible);
    assert(is_source_row(rows, r, sources, trees, i));
}

// --- The default is reached ---

/// Whether only the sources that are mounted or static have anything in their
/// trees.
pub open spec fn trees_are_open(
    sources: Seq<SourceView>,
    trees: Seq<Seq<TreeNodeView>>,
) -> bool {
    forall|i: int|
        0 <= i < trees.len() && (#[trigger] trees[i]).len() > 0 ==> i < sources.len()
            && is_open_source(sources[i])
}

/// What the menu is prepared with: of the sources, only those that are mounted or
/// static have anything in their trees.
pub proof fn prepared_trees_are_open(
    found: Seq<Source>,
    boots: Seq<Option<Result<Vec<DirItem>, IoFailure>>>,
    statics: Seq<(Source, String, Vec<TreeNode>)>,
)
    requires
        forall|i: int| 0 <= i < statics.len() ==> (#[trigger] statics[i]).0@.state is Static,
    ensures
        trees_are_open(all_sources(found, statics), all_trees(found, boots, statics)),
{
    let sources = all_sources(found, statics);
    let trees = all_trees(found, boots, statics);
    let sv = static_views(statics);
    assert forall|i: int| 0 <= i < trees.len() && (#[trigger] trees[i]).len() > 0 implies i
        < sources.len() && is_open_source(sources[i]) by {
        if i < found.len() {
            assert(trees[i] == source_tree(found[i]@, boots[i]));
            assert(sources[i] == source_views(found)[i]);
        } else {
            let j = i - found.len();
            assert(sv[j].source == statics[j].0@);
            assert(sources[i] == sv.map_values(|s: StaticSource| s.source)[j]);
        }
    }
}

/// How many leaves are in the first `i` trees.
spec fn leaves_before(trees: Seq<Seq<TreeNodeView>>, i: int) -> int {
    all_leaves(trees.take(i)).len() as int
}

proof fn lemma_leaf_place(trees: Seq<Seq<TreeNodeView>>, i: int, m: int)
    requires
        0 <= i < trees.len(),
        0 <= m < leaves(trees[i]).len(),
    ensures
        leaves_before(trees, i) + m < all_leaves(trees).len(),
        all_leaves(trees)[leaves_before(trees, i) + m] == leaves(trees[i])[m],
    decreases trees.len(),
{
    let init = trees.drop_last();
    if i < trees.len() - 1 {
        lemma_leaf_place(init, i, m);
        assert(init.take(i) =~= trees.take(i));
    } else {
        assert(init =~= trees.take(i));
    }
}

proof fn lemma_leaves_before(trees: Seq<Seq<TreeNodeView>>, i: int, j: int)
    requires
        0 <= i < j <= trees.len(),
    ensures
        leaves_before(trees, i) + leaves(trees[i]).len() <= leaves_before(trees, j),
    decreases j,
{
    assert(trees.take(j).drop_last() =~= trees.take(j - 1));
    assert(trees.take(j).last() == trees[j - 1]);
    if i < j - 1 {
        lemma_leaves_before(trees, i, j - 1);
    }
}

/// The tree and the place in it of one of all leaves.
proof fn lemma_leaf_home(trees: Seq<Seq<TreeNodeView>>, leaf: LeafView) -> (r: (int, int))
    requires
        all_leaves(trees).contains(leaf),
    ensures
        0 <= r.0 < trees.len(),
        0 <= r.1 < leaves(trees[r.0]).len(),
        leaves(trees[r.0])[r.1] == leaf,
    decreases trees.len(),
{
    let all = all_leaves(trees);
    let k = choose|k: int| 0 <= k < all.len() && all[k] == leaf;
    let init = trees.drop_last();
    if k < all_leaves(init).len() {
        assert(all_leaves(init)[k] == leaf);
        lemma_leaf_home(init, leaf)
    } else {
        (trees.len() - 1, k - all_leaves(init).len())
    }
}

proof fn lemma_default_boots(rows: Seq<Row>, r: int, from: int)
    requires
        0 <= from <= r < rows.len(),
        rows[r].is_default,
        rows[r].kind is Entry,
        leaf_at(rows, r) is Some,
    ensures
        default_boot(rows, from) is Some,
    decreases r - from,
{
    if from < r {
        lemma_default_boots(rows, r, from + 1);
    }
}

/// The row of the default entry.
proof fn lemma_default_row(
    sources: Seq<SourceView>,
    trees: Seq<Seq<TreeNodeView>>,
    efi_var: Option<SelectionView>,
    sel: SelectionView,
) -> (r: int)
    requires
        default_selection(trees, efi_var) == Some(sel),
        trees_are_open(sources, trees),
    ensures
        ({
            let rows = built(sources, trees, Some(sel)).rows;
            &&& 0 <= r < rows.len()
            &&& rows[r].is_default
            &&& rows[r].kind is Entry
            &&& leaf_at(rows, r) is Some
        }),
{
    let rows = built(sources, trees, Some(sel)).rows;
    default_exists(trees, efi_var);
    let leaf = choose|leaf: LeafView|
        #[trigger] all_leaves(trees).contains(leaf) && leaf.path == sel.leaf_path && has_entry(
            leaf,
            sel.entry_name,
        );
    let (i, m) = lemma_leaf_home(trees, leaf);
    let k = choose|k: int|
        0 <= k < leaf.entries.len() && (#[trigger] leaf.entries[k]).name == sel.entry_name;
    assert(trees[i].len() > 0);
    every_entry_is_shown(sources, trees, Some(sel), i, m, k);
    choose|r: int| #[trigger] is_entry_row(rows, r, leaf, k, i, Some(sel))
}

/// When the countdown is over there is something to boot, and it is the entry of
/// the default selection, in its leaf.
pub proof fn default_is_booted_after_countdown(
    sources: Seq<SourceView>,
    trees: Seq<Seq<TreeNodeView>>,
    efi_var: Option<SelectionView>,
    sel: SelectionView,
)
    requires
        default_selection(trees, efi_var) == Some(sel),
        trees_are_open(sources, trees),
    ensures
        default_boot(built(sources, trees, Some(sel)).rows, 0) matches Some(ResultView::Boot {
            leaf_path,
            entry,
            source_idx,
        }) && same_path(leaf_path, sel.leaf_path) && entry.name == sel.entry_name && is_entry_of(
            all_leaves(trees),
            leaf_path,
            entry,
        ),
{
    let rows = built(sources, trees, Some(sel)).rows;
    let r = lemma_default_row(sources, trees, efi_var, sel);
    lemma_default_boots(rows, r, 0);
    countdown_boots_default(sources, trees, sel);
}

/// A row of a default entry among those of sources belongs to a source whose tree
/// holds the default leaf.
proof fn lemma_default_home(
    sources: Seq<SourceView>,
    trees: Seq<Seq<TreeNodeView>>,
    default: Option<SelectionView>,
    n: int,
    r: int,
) -> (i: int)
    requires
        0 <= r < sources_rows(sources, trees, default, n).len(),
        sources_rows(sources, trees, default, n)[r].is_default,
    ensures
        0 <= i < trees.len(),
        source_at(sources_rows(sources, trees, default, n), r) == Some(i),
        leads_to_default(trees[i], default),
    decreases n,
{
    let a = sources_rows(sources, trees, default, n - 1);
    let b = source_rows(sources[n - 1], n - 1, trees, default);
    let rows = sources_rows(sources, trees, default, n);
    assert(rows == a + b);
    if r < a.len() {
        assert(rows[r] == a[r]);
        let i = lemma_default_home(sources, trees, default, n - 1, r);
        lemma_source_at_front(a, b, r);
        i
    } else {
        let q = r - a.len();
        assert(rows[r] == b[q]);
        lemma_tree_rows(trees[n - 1], 1, n - 1, default);
        let below = tree_rows(trees[n - 1], 1, n - 1, default);
        assert(b[q] == below[q - 1]);
        assert forall|k: int| a.len() < k <= r implies !((#[trigger] rows[k]).kind is Source) by {
            assert(rows[k] == below[k - a.len() - 1]);
        }
        assert(rows[a.len() as int] == b[0]);
        lemma_source_above(rows, a.len() as int, r);
        n - 1
    }
}

proof fn lemma_source_at_front(a: Seq<Row>, b: Seq<Row>, i: int)
    requires
        i < a.len(),
    ensures
        source_at(a + b, i) == source_at(a, i),
    decreases i + 1,
{
    if i >= 0 {
        assert((a + b)[i] == a[i]);
        lemma_source_at_front(a, b, i - 1);
    }
}

proof fn lemma_default_source(
    trees: Seq<Seq<TreeNodeView>>,
    default: Option<SelectionView>,
    i: int,
    from: int,
)
    requires
        0 <= from <= i < trees.len(),
        leads_to_default(trees[i], default),
        forall|j: int| 0 <= j < i ==> !leads_to_default(#[trigger] trees[j], default),
    ensures
        default_source(trees, default, from) == Some(i),
    decreases i - from,
{
    if from < i {
        lemma_default_source(trees, default, i, from + 1);
    }
}

/// Where no two leaves have the same path, only one tree holds the default leaf.
proof fn lemma_one_home(
    trees: Seq<Seq<TreeNodeView>>,
    sel: SelectionView,
    i: int,
)
    requires
        paths_differ(all_leaves(trees)),
        0 <= i < trees.len(),
        leads_to_default(trees[i], Some(sel)),
    ensures
        default_source(trees, Some(sel), 0) == Some(i),
{
    let all = all_leaves(trees);
    let m = choose|m: int|
        0 <= m < leaves(trees[i]).len() && same_path(
            (#[trigger] leaves(trees[i])[m]).path,
            sel.leaf_path,
        );
    lemma_leaf_place(trees, i, m);
    assert forall|j: int| 0 <= j < i implies !leads_to_default(#[trigger] trees[j], Some(sel)) by {
        if leads_to_default(trees[j], Some(sel)) {
            let q = choose|q: int|
                0 <= q < leaves(trees[j]).len() && same_path(
                    (#[trigger] leaves(trees[j])[q]).path,
                    sel.leaf_path,
                );
            lemma_leaf_place(trees, j, q);
            lemma_leaves_before(trees, j, i);
            let x = leaves_before(trees, j) + q;
            let y = leaves_before(trees, i) + m;
            assert(!same_path(all[x].path, all[y].path));
        }
    }
    lemma_default_source(trees, Some(sel), i, 0);
}

proof fn lemma_some_last_default(rows: Seq<Row>, r: int, n: int) -> (i: int)
    requires
        0 <= r < n <= rows.len(),
        rows[r].is_default,
    ensures
        last_default(rows, n) == Some(i),
        0 <= i < n,
        rows[i].is_default,
    decreases n,
{
    if rows[n - 1].is_default {
        n - 1
    } else {
        lemma_some_last_default(rows, r, n - 1)
    }
}

proof fn lemma_node_default_is_entry(
    n: TreeNodeView,
    depth: int,
    source_idx: int,
    default: Option<SelectionView>,
    r: int,
)
    requires
        0 <= r < node_rows(n, depth, source_idx, default).len(),
        node_rows(n, depth, source_idx, default)[r].is_default,
    ensures
        node_rows(n, depth, source_idx, default)[r].kind is Entry,
    decreases n,
{
    let rows = node_rows(n, depth, source_idx, default);
    if let TreeNodeView::Dir { name, children } = n {
        let below = tree_rows(children, depth + 1, source_idx, default);
        assert(rows[r] == below[r - 1]);
        lemma_tree_default_is_entry(children, depth + 1, source_idx, default, r - 1);
    }
}

proof fn lemma_tree_default_is_entry(
    nodes: Seq<TreeNodeView>,
    depth: int,
    source_idx: int,
    default: Option<SelectionView>,
    r: int,
)
    requires
        0 <= r < tree_rows(nodes, depth, source_idx, default).len(),
        tree_rows(nodes, depth, source_idx, default)[r].is_default,
    ensures
        tree_rows(nodes, depth, source_idx, default)[r].kind is Entry,
    decreases nodes,
{
    let init = nodes.drop_last();
    let last = nodes[nodes.len() - 1];
    let a = tree_rows(init, depth, source_idx, default);
    if r < a.len() {
        lemma_tree_default_is_entry(init, depth, source_idx, default, r);
    } else {
        lemma_node_default_is_entry(last, depth, source_idx, default, r - a.len());
    }
}

proof fn lemma_default_is_entry(
    sources: Seq<SourceView>,
    trees: Seq<Seq<TreeNodeView>>,
    default: Option<SelectionView>,
    n: int,
    r: int,
)
    requires
        0 <= r < sources_rows(sources, trees, default, n).len(),
        sources_rows(sources, trees, default, n)[r].is_default,
    ensures
        sources_rows(sources, trees, default, n)[r].kind is Entry,
    decreases n,
{
    let a = sources_rows(sources, trees, default, n - 1);
    let b = source_rows(sources[n - 1], n - 1, trees, default);
    if r < a.len() {
        lemma_default_is_entry(sources, trees, default, n - 1, r);
    } else {
        let below = tree_rows(trees[n - 1], 1, n - 1, default);
        assert(b[r - a.len()] == below[r - a.len() - 1]);
        lemma_tree_default_is_entry(trees[n - 1], 1, n - 1, default, r - a.len() - 1);
    }
}

/// The tree view starts with the cursor on the default entry, and that can be
/// seen, where no two leaves have the same path.
pub proof fn default_is_preselected(
    sources: Seq<SourceView>,
    trees: Seq<Seq<TreeNodeView>>,
    efi_var: Option<SelectionView>,
    sel: SelectionView,
)
    requires
        default_selection(trees, efi_var) == Some(sel),
        trees_are_open(sources, trees),
        paths_differ(all_leaves(trees)),
    ensures
        ({
            let v = built(sources, trees, Some(sel));
            &&& 0 <= v.cursor < v.rows.len()
            &&& v.rows[v.cursor].visible
            &&& v.rows[v.cursor].kind matches RowKind::Entry { entry, .. } && entry.name
                == sel.entry_name
            &&& leaf_at(v.rows, v.cursor) matches Some(path) && same_path(path, sel.leaf_path)
        }),
{
    let n = sources.len() as int;
    let raw = sources_rows(sources, trees, Some(sel), n);
    let rows = built(sources, trees, Some(sel)).rows;
    assert(same_but_visibility(rows, raw));
    let r = lemma_default_row(sources, trees, efi_var, sel);
    let at = lemma_some_last_default(rows, r, rows.len() as int);
    let i = lemma_default_home(sources, trees, Some(sel), n, at);
    lemma_source_at_alike(rows, raw, at);
    lemma_one_home(trees, sel, i);
    cursor_starts_on_default(sources, trees, Some(sel), at);
    default_can_be_seen(sources, trees, Some(sel), at);
    lemma_default_is_entry(sources, trees, Some(sel), n, at);
    entries_boot_from_their_leaf(sources, trees, Some(sel));
    assert(is_in_place(rows, at, all_leaves(trees), Some(sel)));
}

} // verus!
