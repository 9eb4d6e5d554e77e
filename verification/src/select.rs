//! The choice of the default boot entry.

use vstd::prelude::*;

use crate::path::{parent_of, same_path};
use crate::sort::views;
use crate::types::{
    node_view, node_views, node_views_step, opt_selection, opt_selection_ref, tree_views,
    BootSelection, EntryView, Leaf, LeafView, SelectionView, TreeNode, TreeNodeView,
};

verus! {

/// The leaves of a node, in the order in which the tree lists them.
pub open spec fn node_leaves(n: TreeNodeView) -> Seq<LeafView>
    decreases n,
{
    match n {
        TreeNodeView::Leaf(leaf) => seq![leaf],
        TreeNodeView::Dir { name, children } => leaves(children),
    }
}

/// The leaves of a sequence of nodes.
pub open spec fn leaves(nodes: Seq<TreeNodeView>) -> Seq<LeafView>
    decreases nodes,
{
    if nodes.len() == 0 {
        Seq::empty()
    } else {
        leaves(nodes.drop_last()) + node_leaves(nodes[nodes.len() - 1])
    }
}

/// The leaves of all sources.
pub open spec fn all_leaves(trees: Seq<Seq<TreeNodeView>>) -> Seq<LeafView>
    decreases trees.len(),
{
    if trees.len() == 0 {
        Seq::empty()
    } else {
        all_leaves(trees.drop_last()) + leaves(trees.last())
    }
}

/// The most recently modified leaf; of several the last.
pub open spec fn last_newest(s: Seq<LeafView>) -> Option<LeafView>
    decreases s.len(),
{
    if s.len() == 0 {
        None
    } else {
        match last_newest(s.drop_last()) {
            Some(l) if s.last().mtime < l.mtime => Some(l),
            _ => Some(s.last()),
        }
    }
}

/// The most recently modified leaf; of several the first.
pub open spec fn first_newest(s: Seq<LeafView>) -> Option<LeafView>
    decreases s.len(),
{
    if s.len() == 0 {
        None
    } else {
        match first_newest(s.drop_last()) {
            Some(l) if s.last().mtime <= l.mtime => Some(l),
            _ => Some(s.last()),
        }
    }
}

/// Whether a leaf lies directly in the given directory.
pub open spec fn lies_in(dir: Seq<u8>) -> spec_fn(LeafView) -> bool {
    |l: LeafView| parent_of(l.path) matches Some(p) && same_path(p, dir)
}

/// The first entry with the given name.
pub open spec fn entry_named(entries: Seq<EntryView>, name: Seq<char>, from: int) -> Option<
    EntryView,
>
    decreases entries.len() - from,
{
    if from < 0 || from >= entries.len() {
        None
    } else if entries[from].name == name {
        Some(entries[from])
    } else {
        entry_named(entries, name, from + 1)
    }
}

/// The entry of a leaf with the given name, else its first entry.
pub open spec fn preferred_entry(entries: Seq<EntryView>, name: Seq<char>) -> Option<EntryView> {
    match entry_named(entries, name, 0) {
        Some(e) => Some(e),
        None => if entries.len() > 0 {
            Some(entries[0])
        } else {
            None
        },
    }
}

/// The selection that follows from the remembered one: the same entry in the
/// most recently modified sibling of its leaf.
pub open spec fn from_remembered(trees: Seq<Seq<TreeNodeView>>, var: SelectionView) -> Option<
    SelectionView,
> {
    match parent_of(var.leaf_path) {
        None => None,
        Some(dir) => match last_newest(all_leaves(trees).filter(lies_in(dir))) {
            None => None,
            Some(leaf) => match preferred_entry(leaf.entries, var.entry_name) {
                None => None,
                Some(e) => Some(SelectionView { leaf_path: leaf.path, entry_name: e.name }),
            },
        },
    }
}

/// The first entry of the most recently modified leaf of all.
pub open spec fn from_newest(trees: Seq<Seq<TreeNodeView>>) -> Option<SelectionView> {
    match first_newest(all_leaves(trees)) {
        None => None,
        Some(leaf) => if leaf.entries.len() > 0 {
            Some(SelectionView { leaf_path: leaf.path, entry_name: leaf.entries[0].name })
        } else {
            None
        },
    }
}

/// The default selection.
pub open spec fn default_selection(
    trees: Seq<Seq<TreeNodeView>>,
    efi_var: Option<SelectionView>,
) -> Option<SelectionView> {
    match efi_var {
        Some(var) => match from_remembered(trees, var) {
            Some(sel) => Some(sel),
            None => from_newest(trees),
        },
        None => from_newest(trees),
    }
}

// --- Laws ---

/// The newest leaf is one of those to choose from, and none is newer.
pub proof fn newest_is_newest(s: Seq<LeafView>)
    ensures
        first_newest(s) is Some <==> s.len() > 0,
        last_newest(s) is Some <==> s.len() > 0,
        first_newest(s) matches Some(l) ==> s.contains(l) && forall|i: int|
            0 <= i < s.len() ==> (#[trigger] s[i]).mtime <= l.mtime,
        last_newest(s) matches Some(l) ==> s.contains(l) && forall|i: int|
            0 <= i < s.len() ==> (#[trigger] s[i]).mtime <= l.mtime,
    decreases s.len(),
{
    if s.len() > 0 {
        let init = s.drop_last();
        newest_is_newest(init);
        assert(s[s.len() - 1] == s.last());
        if let Some(l) = first_newest(init) {
            let k = choose|k: int| 0 <= k < init.len() && init[k] == l;
            assert(s[k] == l);
            assert forall|i: int| 0 <= i < s.len() implies (#[trigger] s[i]).mtime
                <= first_newest(s)->0.mtime by {
                if i < init.len() {
                    assert(init[i].mtime <= l.mtime);
                }
            }
        }
        if let Some(l) = last_newest(init) {
            let k = choose|k: int| 0 <= k < init.len() && init[k] == l;
            assert(s[k] == l);
            assert forall|i: int| 0 <= i < s.len() implies (#[trigger] s[i]).mtime
                <= last_newest(s)->0.mtime by {
                if i < init.len() {
                    assert(init[i].mtime <= l.mtime);
                }
            }
        }
    }
}

proof fn lemma_entry_named(entries: Seq<EntryView>, name: Seq<char>, from: int)
    requires
        0 <= from,
    ensures
        entry_named(entries, name, from) matches Some(e) ==> e.name == name && entries.contains(e),
        entry_named(entries, name, from) is None ==> forall|i: int|
            from <= i < entries.len() ==> (#[trigger] entries[i]).name != name,
    decreases entries.len() - from,
{
    if from < entries.len() && entries[from].name != name {
        lemma_entry_named(entries, name, from + 1);
    }
}

/// Whether a leaf has an entry with the given name.
pub open spec fn has_entry(leaf: LeafView, name: Seq<char>) -> bool {
    exists|i: int| 0 <= i < leaf.entries.len() && (#[trigger] leaf.entries[i]).name == name
}

/// The default selection names a leaf of the trees and an entry of that leaf.
pub proof fn default_exists(trees: Seq<Seq<TreeNodeView>>, efi_var: Option<SelectionView>)
    ensures
        default_selection(trees, efi_var) matches Some(sel) ==> exists|leaf: LeafView|
            #[trigger] all_leaves(trees).contains(leaf) && leaf.path == sel.leaf_path && has_entry(
                leaf,
                sel.entry_name,
            ),
{
    let all = all_leaves(trees);
    newest_is_newest(all);
    if let Some(leaf) = first_newest(all) {
        if leaf.entries.len() > 0 {
            assert(has_entry(leaf, leaf.entries[0].name));
        }
    }
    if let Some(var) = efi_var {
        if let Some(dir) = parent_of(var.leaf_path) {
            let near = all.filter(lies_in(dir));
            newest_is_newest(near);
            if let Some(leaf) = last_newest(near) {
                all.lemma_filter_contains_rev(lies_in(dir), leaf);
                lemma_entry_named(leaf.entries, var.entry_name, 0);
                if let Some(e) = preferred_entry(leaf.entries, var.entry_name) {
                    let k = if entry_named(leaf.entries, var.entry_name, 0) is Some {
                        choose|k: int| 0 <= k < leaf.entries.len() && leaf.entries[k] == e
                    } else {
                        0
                    };
                    assert(leaf.entries[k].name == e.name);
                    assert(has_entry(leaf, e.name));
                }
            }
        }
    }
}

/// Where the directory of the remembered leaf still holds leaves, and the most
/// recently modified of them has entries, the default is in that leaf, and it is
/// the remembered entry if the leaf has one of that name.
pub proof fn remembered_entry_preferred(
    trees: Seq<Seq<TreeNodeView>>,
    var: SelectionView,
    dir: Seq<u8>,
    leaf: LeafView,
)
    requires
        parent_of(var.leaf_path) == Some(dir),
        last_newest(all_leaves(trees).filter(lies_in(dir))) == Some(leaf),
        leaf.entries.len() > 0,
    ensures
        default_selection(trees, Some(var)) matches Some(sel) && sel.leaf_path == leaf.path && (
        has_entry(leaf, var.entry_name) ==> sel.entry_name == var.entry_name) && (!has_entry(
            leaf,
            var.entry_name,
        ) ==> sel.entry_name == leaf.entries[0].name),
{
    lemma_entry_named(leaf.entries, var.entry_name, 0);
    if let Some(e) = entry_named(leaf.entries, var.entry_name, 0) {
        let k = choose|k: int| 0 <= k < leaf.entries.len() && leaf.entries[k] == e;
        assert(leaf.entries[k].name == var.entry_name);
    }
}

/// The leaves of two lists of nodes, one behind the other, are those of the first
/// and then those of the second; a leaf is its own only leaf, and a directory has
/// the leaves of what it holds.
pub proof fn leaves_are_listed_in_order(
    a: Seq<TreeNodeView>,
    b: Seq<TreeNodeView>,
    leaf: LeafView,
    name: Seq<char>,
)
    ensures
        leaves(a + b) == leaves(a) + leaves(b),
        leaves(seq![TreeNodeView::Leaf(leaf)]) == seq![leaf],
        leaves(seq![TreeNodeView::Dir { name, children: a }]) == leaves(a),
        leaves(Seq::empty()) == Seq::<LeafView>::empty(),
    decreases b.len(),
{
    let one = seq![TreeNodeView::Leaf(leaf)];
    let dir = seq![TreeNodeView::Dir { name, children: a }];
    assert(one.drop_last() =~= Seq::empty());
    assert(dir.drop_last() =~= Seq::empty());
    reveal_with_fuel(leaves, 2);
    assert(leaves(one) =~= seq![leaf]);
    assert(leaves(dir) =~= leaves(a));
    if b.len() == 0 {
        assert(a + b =~= a);
    } else {
        leaves_are_listed_in_order(a, b.drop_last(), leaf, name);
        assert((a + b).drop_last() =~= a + b.drop_last());
        assert(leaves(a + b) =~= leaves(a) + leaves(b));
    }
}

/// The leaves of all sources are those of the first sources and then those of the
/// others, and those of one source are the leaves of its tree.
pub proof fn sources_are_listed_in_order(
    a: Seq<Seq<TreeNodeView>>,
    b: Seq<Seq<TreeNodeView>>,
    tree: Seq<TreeNodeView>,
)
    ensures
        all_leaves(a + b) == all_leaves(a) + all_leaves(b),
        all_leaves(seq![tree]) == leaves(tree),
        all_leaves(Seq::empty()) == Seq::<LeafView>::empty(),
    decreases b.len(),
{
    assert(seq![tree].drop_last() =~= Seq::empty());
    reveal_with_fuel(all_leaves, 2);
    assert(all_leaves(seq![tree]) =~= leaves(tree));
    if b.len() == 0 {
        assert(a + b =~= a);
    } else {
        sources_are_listed_in_order(a, b.drop_last(), tree);
        assert((a + b).drop_last() =~= a + b.drop_last());
        assert(all_leaves(a + b) =~= all_leaves(a) + all_leaves(b));
    }
}

/// A leaf is among those of all sources exactly if it is in the tree of one.
pub proof fn every_source_is_searched(trees: Seq<Seq<TreeNodeView>>, leaf: LeafView)
    ensures
        all_leaves(trees).contains(leaf) <==> exists|t: int|
            0 <= t < trees.len() && (#[trigger] leaves(trees[t])).contains(leaf),
    decreases trees.len(),
{
    if trees.len() > 0 {
        let init = trees.drop_last();
        every_source_is_searched(init, leaf);
        let a = all_leaves(init);
        let b = leaves(trees.last());
        if all_leaves(trees).contains(leaf) {
            let k = choose|k: int| 0 <= k < (a + b).len() && (a + b)[k] == leaf;
            if k < a.len() {
                assert(a[k] == leaf);
                let t = choose|t: int|
                    0 <= t < init.len() && (#[trigger] leaves(init[t])).contains(leaf);
                assert(leaves(trees[t]).contains(leaf));
            } else {
                assert(b[k - a.len()] == leaf);
                assert(leaves(trees[trees.len() - 1]).contains(leaf));
            }
        }
        if exists|t: int| 0 <= t < trees.len() && (#[trigger] leaves(trees[t])).contains(leaf) {
            let t = choose|t: int|
                0 <= t < trees.len() && (#[trigger] leaves(trees[t])).contains(leaf);
            if t < init.len() {
                assert(leaves(init[t]).contains(leaf));
                let k = choose|k: int| 0 <= k < a.len() && a[k] == leaf;
                assert((a + b)[k] == leaf);
            } else {
                let k = choose|k: int| 0 <= k < b.len() && b[k] == leaf;
                assert((a + b)[a.len() + k] == leaf);
            }
        }
    }
}

/// Without a remembered selection the default is the first entry of a leaf that no
/// leaf of any source is newer than.
pub proof fn default_is_newest_of_all(trees: Seq<Seq<TreeNodeView>>)
    ensures
        default_selection(trees, None) matches Some(sel) ==> exists|leaf: LeafView|
            {
                &&& #[trigger] all_leaves(trees).contains(leaf)
                &&& leaf.path == sel.leaf_path
                &&& leaf.entries.len() > 0
                &&& leaf.entries[0].name == sel.entry_name
                &&& forall|t: int, other: LeafView|
                    0 <= t < trees.len() && #[trigger] leaves(trees[t]).contains(other)
                        ==> other.mtime <= leaf.mtime
            },
{
    let all = all_leaves(trees);
    newest_is_newest(all);
    if let Some(leaf) = first_newest(all) {
        assert forall|t: int, other: LeafView|
            0 <= t < trees.len() && #[trigger] leaves(trees[t]).contains(
                other,
            ) implies other.mtime <= leaf.mtime by {
            every_source_is_searched(trees, other);
            let k = choose|k: int| 0 <= k < all.len() && all[k] == other;
            assert(all[k].mtime <= leaf.mtime);
        }
        assert(all.contains(leaf));
    }
}

proof fn lemma_first_newest_at(s: Seq<LeafView>, k: int)
    requires
        0 <= k < s.len(),
        forall|i: int| 0 <= i < k ==> (#[trigger] s[i]).mtime < s[k].mtime,
        forall|i: int| k < i < s.len() ==> (#[trigger] s[i]).mtime <= s[k].mtime,
    ensures
        first_newest(s) == Some(s[k]),
    decreases s.len(),
{
    let init = s.drop_last();
    if k < init.len() {
        lemma_first_newest_at(init, k);
        assert(s[s.len() - 1].mtime <= s[k].mtime);
    } else {
        newest_is_newest(init);
        if let Some(l) = first_newest(init) {
            let j = choose|j: int| 0 <= j < init.len() && init[j] == l;
            assert(s[j].mtime < s[k].mtime);
        }
    }
}

/// Whichever source it is in, the newest leaf decides where nothing is remembered:
/// of several equally new ones the first. Its first entry is the default, and there
/// is none if it has no entries.
pub proof fn newest_leaf_is_default(trees: Seq<Seq<TreeNodeView>>, k: int)
    requires
        0 <= k < all_leaves(trees).len(),
        forall|i: int|
            0 <= i < k ==> (#[trigger] all_leaves(trees)[i]).mtime < all_leaves(trees)[k].mtime,
        forall|i: int|
            k < i < all_leaves(trees).len() ==> (#[trigger] all_leaves(trees)[i]).mtime
                <= all_leaves(trees)[k].mtime,
    ensures
        default_selection(trees, None) == (if all_leaves(trees)[k].entries.len() > 0 {
            Some(
                SelectionView {
                    leaf_path: all_leaves(trees)[k].path,
                    entry_name: all_leaves(trees)[k].entries[0].name,
                },
            )
        } else {
            None
        }),
{
    lemma_first_newest_at(all_leaves(trees), k);
}

/// There is a default exactly if the sources hold a leaf and the newest has entries;
/// so where every leaf has entries, one leaf is enough.
pub proof fn one_leaf_gives_a_default(trees: Seq<Seq<TreeNodeView>>, t: int)
    requires
        0 <= t < trees.len(),
        leaves(trees[t]).len() > 0,
        forall|u: int, l: LeafView|
            0 <= u < trees.len() && #[trigger] leaves(trees[u]).contains(l) ==> l.entries.len()
                > 0,
    ensures
        default_selection(trees, None) is Some,
{
    let leaf = leaves(trees[t])[0];
    assert(leaves(trees[t]).contains(leaf));
    every_source_is_searched(trees, leaf);
    newest_is_newest(all_leaves(trees));
    let newest = first_newest(all_leaves(trees))->0;
    every_source_is_searched(trees, newest);
}

proof fn lemma_last_newest_at(s: Seq<LeafView>, p: spec_fn(LeafView) -> bool, k: int)
    requires
        0 <= k < s.len(),
        p(s[k]),
        forall|i: int| 0 <= i < k && p(#[trigger] s[i]) ==> s[i].mtime <= s[k].mtime,
        forall|i: int| k < i < s.len() && p(#[trigger] s[i]) ==> s[i].mtime < s[k].mtime,
    ensures
        last_newest(s.filter(p)) == Some(s[k]),
    decreases s.len(),
{
    broadcast use vstd::seq_lib::group_filter_ensures;

    reveal(Seq::filter);
    let init = s.drop_last();
    let f = init.filter(p);
    assert(f.push(s.last()).drop_last() =~= f);
    if k < init.len() {
        lemma_last_newest_at(init, p, k);
        assert(p(s[s.len() - 1]) ==> s[s.len() - 1].mtime < s[k].mtime);
    } else {
        newest_is_newest(f);
        if let Some(l) = last_newest(f) {
            init.lemma_filter_contains_rev(p, l);
            let j = choose|j: int| 0 <= j < init.len() && init[j] == l;
            let m = choose|m: int| 0 <= m < f.len() && f[m] == l;
            assert(p(f[m]));
            assert(s[j].mtime <= s[k].mtime);
        }
    }
}

/// With a remembered selection the default is in the newest leaf of the directory
/// that held the remembered one, in whichever source that leaf is; of several
/// equally new ones it is the last. Its entry of the remembered name is the default,
/// or its first entry where none has that name.
pub proof fn newest_sibling_is_default(
    trees: Seq<Seq<TreeNodeView>>,
    var: SelectionView,
    dir: Seq<u8>,
    k: int,
)
    requires
        parent_of(var.leaf_path) == Some(dir),
        0 <= k < all_leaves(trees).len(),
        parent_of(all_leaves(trees)[k].path) matches Some(p) && same_path(p, dir),
        all_leaves(trees)[k].entries.len() > 0,
        forall|i: int, p: Seq<u8>|
            0 <= i < k && parent_of(#[trigger] all_leaves(trees)[i].path) == Some(p)
                && #[trigger] same_path(p, dir) ==> all_leaves(trees)[i].mtime <= all_leaves(
                trees,
            )[k].mtime,
        forall|i: int, p: Seq<u8>|
            k < i < all_leaves(trees).len() && parent_of(#[trigger] all_leaves(trees)[i].path)
                == Some(p) && #[trigger] same_path(p, dir) ==> all_leaves(trees)[i].mtime
                < all_leaves(trees)[k].mtime,
    ensures
        default_selection(trees, Some(var)) matches Some(sel) && {
            &&& sel.leaf_path == all_leaves(trees)[k].path
            &&& sel.entry_name == var.entry_name || sel.entry_name == all_leaves(
                trees,
            )[k].entries[0].name
            &&& sel.entry_name == var.entry_name <==> exists|j: int|
                0 <= j < all_leaves(trees)[k].entries.len() && (#[trigger] all_leaves(
                    trees,
                )[k].entries[j]).name == var.entry_name
        },
{
    let all = all_leaves(trees);
    let p = lies_in(dir);
    assert forall|i: int| 0 <= i < k && p(#[trigger] all[i]) implies all[i].mtime
        <= all[k].mtime by {
        let q = parent_of(all[i].path)->0;
        assert(same_path(q, dir));
        assert(parent_of(all_leaves(trees)[i].path) == Some(q));
    }
    assert forall|i: int| k < i < all.len() && p(#[trigger] all[i]) implies all[i].mtime
        < all[k].mtime by {
        let q = parent_of(all[i].path)->0;
        assert(same_path(q, dir));
        assert(parent_of(all_leaves(trees)[i].path) == Some(q));
    }
    lemma_last_newest_at(all, p, k);
    let leaf = all[k];
    lemma_entry_named(leaf.entries, var.entry_name, 0);
    if let Some(e) = entry_named(leaf.entries, var.entry_name, 0) {
        let j = choose|j: int| 0 <= j < leaf.entries.len() && leaf.entries[j] == e;
        assert(leaf.entries[j].name == var.entry_name);
    } else {
        assert(leaf.entries[0].name != var.entry_name);
    }
}

/// A remembered selection whose directory holds no leaf any more counts as none.
pub proof fn forgotten_directory_is_ignored(trees: Seq<Seq<TreeNodeView>>, var: SelectionView)
    requires
        forall|t: int, l: LeafView, dir: Seq<u8>, p: Seq<u8>|
            0 <= t < trees.len() && #[trigger] leaves(trees[t]).contains(l) && parent_of(
                var.leaf_path,
            ) == Some(dir) && parent_of(l.path) == Some(p) ==> !#[trigger] same_path(p, dir),
    ensures
        default_selection(trees, Some(var)) == default_selection(trees, None),
{
    broadcast use vstd::seq_lib::group_filter_ensures;

    let all = all_leaves(trees);
    if let Some(dir) = parent_of(var.leaf_path) {
        let near = all.filter(lies_in(dir));
        newest_is_newest(near);
        if let Some(leaf) = last_newest(near) {
            all.lemma_filter_contains_rev(lies_in(dir), leaf);
            let m = choose|m: int| 0 <= m < near.len() && near[m] == leaf;
            assert(lies_in(dir)(near[m]));
            every_source_is_searched(trees, leaf);
            let t = choose|t: int|
                0 <= t < trees.len() && (#[trigger] leaves(trees[t])).contains(leaf);
            assert(!same_path(parent_of(leaf.path)->0, dir));
        }
    }
}

// --- The choice ---

/// Adds the leaves below the given nodes.
fn collect_leaves<'a>(nodes: &'a Vec<TreeNode>, out: &mut Vec<&'a Leaf>)
    ensures
        views(final(out)@) == views(old(out)@) + leaves(node_views(nodes@)),
    decreases nodes,
{
    let ghost start = views(out@);
    let mut i: usize = 0;
    assert(nodes@.take(0) =~= Seq::<TreeNode>::empty());
    assert(start + leaves(node_views(nodes@.take(0))) =~= start);
    while i < nodes.len()
        invariant
            i <= nodes@.len(),
            views(out@) == start + leaves(node_views(nodes@.take(i as int))),
        decreases nodes@.len() - i,
    {
        let ghost before = out@;
        proof {
            node_views_step(nodes@, i as int);
        }
        assert(leaves(node_views(nodes@.take(i + 1))) == leaves(node_views(nodes@.take(i as int)))
            + node_leaves(node_view(nodes@[i as int])));
        assert(decreases_to!(nodes => nodes@[i as int]));
        match &nodes[i] {
            TreeNode::Leaf(leaf) => {
                out.push(leaf);
                assert(views(out@) =~= views(before) + seq![leaf@]);
            },
            TreeNode::Dir { name: _, children } => {
                collect_leaves(children, out);
            },
        }
        assert(views(out@) =~= start + leaves(node_views(nodes@.take(i + 1))));
        i = i + 1;
    }
    assert(nodes@.take(i as int) =~= nodes@);
}

fn collect_all<'a>(trees: &'a [(String, Vec<TreeNode>)]) -> (r: Vec<&'a Leaf>)
    ensures
        views(r@) == all_leaves(tree_views(trees@)),
{
    let mut out: Vec<&'a Leaf> = Vec::new();
    let ghost t = tree_views(trees@);
    let mut i: usize = 0;
    assert(t.take(0) =~= Seq::<Seq<TreeNodeView>>::empty());
    assert(views(out@) =~= Seq::<LeafView>::empty());
    while i < trees.len()
        invariant
            i <= trees@.len(),
            t == tree_views(trees@),
            views(out@) == all_leaves(t.take(i as int)),
        decreases trees@.len() - i,
    {
        collect_leaves(&trees[i].1, &mut out);
        assert(t.take(i + 1).drop_last() =~= t.take(i as int));
        assert(t.take(i + 1).last() == node_views(trees@[i as int].1@));
        i = i + 1;
    }
    assert(t.take(i as int) =~= t);
    out
}

fn name_in_leaf(leaf: &Leaf, name: &String) -> (r: Option<String>)
    ensures
        match r {
            Some(n) => preferred_entry(leaf@.entries, name@) matches Some(e) && e.name == n@,
            None => preferred_entry(leaf@.entries, name@) is None,
        },
{
    let mut i: usize = 0;
    while i < leaf.entries.len()
        invariant
            i <= leaf.entries@.len(),
            entry_named(leaf@.entries, name@, 0) == entry_named(leaf@.entries, name@, i as int),
        decreases leaf.entries@.len() - i,
    {
        assert(leaf@.entries[i as int] == leaf.entries@[i as int]@);
        if leaf.entries[i].name == *name {
            return Some(leaf.entries[i].name.clone());
        }
        i = i + 1;
    }
    if leaf.entries.len() > 0 {
        assert(leaf@.entries[0] == leaf.entries@[0]@);
        Some(leaf.entries[0].name.clone())
    } else {
        None
    }
}

fn resolve_from_efi_var(trees: &[(String, Vec<TreeNode>)], var: &BootSelection) -> (r: Option<
    BootSelection,
>)
    ensures
        opt_selection(r) == from_remembered(tree_views(trees@), var@),
{
    let dir = match var.leaf_path.parent() {
        Some(dir) => dir,
        None => {
            return None;
        },
    };
    let all = collect_all(trees);
    let ghost s = views(all@);
    let ghost p = lies_in(dir@);
    let mut newest: Option<&Leaf> = None;
    let mut i: usize = 0;
    assert(s.take(0).filter(p) =~= Seq::<LeafView>::empty()) by {
        reveal(Seq::filter);
    }
    while i < all.len()
        invariant
            i <= all@.len(),
            s == views(all@),
            p == lies_in(dir@),
            match newest {
                Some(l) => last_newest(s.take(i as int).filter(p)) == Some(l@),
                None => last_newest(s.take(i as int).filter(p)) is None,
            },
        decreases all@.len() - i,
    {
        let leaf = all[i];
        let inside = match leaf.path.parent() {
            Some(parent) => parent.is_same(&dir),
            None => false,
        };
        proof {
            assert(s[i as int] == leaf@);
            assert(inside == p(leaf@));
            assert(s.take(i + 1).drop_last() =~= s.take(i as int));
            assert(s.take(i + 1).last() == s[i as int]);
            reveal(Seq::filter);
            let f = s.take(i as int).filter(p);
            if inside {
                assert(s.take(i + 1).filter(p) == f.push(leaf@));
                assert(f.push(leaf@).drop_last() =~= f);
            } else {
                assert(s.take(i + 1).filter(p) == f);
            }
        }
        if inside {
            newest = match newest {
                Some(l) => if leaf.mtime < l.mtime {
                    Some(l)
                } else {
                    Some(leaf)
                },
                None => Some(leaf),
            };
        }
        i = i + 1;
    }
    assert(s.take(i as int) =~= s);
    match newest {
        Some(leaf) => match name_in_leaf(leaf, &var.entry_name) {
            Some(entry_name) => Some(BootSelection { leaf_path: leaf.path.clone(), entry_name }),
            None => None,
        },
        None => None,
    }
}

fn resolve_global_fallback(trees: &[(String, Vec<TreeNode>)]) -> (r: Option<BootSelection>)
    ensures
        opt_selection(r) == from_newest(tree_views(trees@)),
{
    let all = collect_all(trees);
    let ghost s = views(all@);
    let mut newest: Option<&Leaf> = None;
    let mut i: usize = 0;
    assert(s.take(0) =~= Seq::<LeafView>::empty());
    while i < all.len()
        invariant
            i <= all@.len(),
            s == views(all@),
            match newest {
                Some(l) => first_newest(s.take(i as int)) == Some(l@),
                None => first_newest(s.take(i as int)) is None,
            },
        decreases all@.len() - i,
    {
        let leaf = all[i];
        assert(s[i as int] == leaf@);
        assert(s.take(i + 1).drop_last() =~= s.take(i as int));
        assert(s.take(i + 1).last() == s[i as int]);
        newest = match newest {
            Some(l) => if leaf.mtime > l.mtime {
                Some(leaf)
            } else {
                Some(l)
            },
            None => Some(leaf),
        };
        i = i + 1;
    }
    assert(s.take(i as int) =~= s);
    match newest {
        Some(leaf) => if leaf.entries.len() > 0 {
            assert(leaf@.entries[0] == leaf.entries@[0]@);
            Some(
                BootSelection {
                    leaf_path: leaf.path.clone(),
                    entry_name: leaf.entries[0].name.clone(),
                },
            )
        } else {
            None
        },
        None => None,
    }
}

/// Resolve which boot entry to pre-select.
///
/// 1. If `efi_var` is given, find the most recently modified sibling leaf
///    (same parent directory as its leaf).
/// 2. In that leaf, match the name of its entry; if missing, use the first entry.
/// 3. Fallback: globally most recent leaf, first entry.
pub fn resolve_default(
    trees: &[(String, Vec<TreeNode>)],
    efi_var: Option<&BootSelection>,
) -> (r: Option<BootSelection>)
    ensures
        opt_selection(r) == default_selection(tree_views(trees@), opt_selection_ref(efi_var)),
{
    if let Some(var) = efi_var {
        if let Some(sel) = resolve_from_efi_var(trees, var) {
            return Some(sel);
        }
    }
    resolve_global_fallback(trees)
}

} // verus!
