//! What is shown: the items of the menus, the rows of the tree view and how they open
//! and close, and what of them is on the screen.

use vstd::prelude::*;
use vstd::utf8::encode_utf8;

use crate::menu::{
    default_row, dir_entries_of, dir_entry, entry_menu, entry_position, file_menu, file_order,
    first_failure, flat_rows, menu_of, source_menu, spaces, tree_menu, DirEntryView, FlatKind,
    FlatRow, ItemView, ListedFile, ListedView, Mark, MenuView,
};
use crate::path::{
    bytes_before, bytes_order_total, bytes_order_transitive, joined, path_text, same_path,
    short_name,
};
use crate::render::{
    asterisks, crumb, error_lines, heading, hint_bar, item_end, item_line, item_lines, mark_sign,
    menu_screen, passphrase_screen, program_name, row_line, row_lines, row_name, row_sign,
    title_bar, tree_view_screen,
};
use crate::select::leaves;
use crate::sort::{
    place_before_sorting, place_in_sorted, sorted, sorted_is_ordered_rearrangement,
    sorted_keeps_length, views,
};
use crate::text::{decimal, utf8_lossy};
use crate::treeview::{
    built, default_source, is_above, is_shown, last_default, leads_to_default, leaf_rows,
    next_visible, node_rows, shown, source_at, source_rows, sources_rows, tree_rows, visible_before,
    Row, RowKind, ShownState, ViewState,
};
use crate::types::{
    EntryView, ErrorView, LeafView, SelectionView, SourceStateView, SourceView, TreeNodeView,
};

verus! {

// --- Menus ---

/// A menu starts on the item that was preselected, on the first if none was, and on the
/// last if there are not so many.
pub proof fn menu_starts_on_preselected(items: Seq<ItemView>, i: int)
    requires
        items.len() > 0,
        i >= 0,
    ensures
        menu_of(items, None).cursor == 0,
        i < items.len() ==> menu_of(items, Some(i)).cursor == i,
        i >= items.len() ==> menu_of(items, Some(i)).cursor == items.len() - 1,
        menu_of(items, Some(i)).items == items,
        menu_of(items, None).items == items,
        menu_of(items, Some(i)).preselected == Some(i),
{
}

/// Going down and then up, or up and then down, comes back to the item unless the list
/// ends there.
pub proof fn menu_moves_are_undone(m: MenuView)
    requires
        m.is_sound(),
        m.items.len() > 0,
    ensures
        m.cursor + 1 < m.items.len() ==> m.down().up() == m && m.down().cursor == m.cursor + 1,
        m.cursor > 0 ==> m.up().down() == m && m.up().cursor == m.cursor - 1,
        m.cursor + 1 == m.items.len() ==> m.down() == m,
        m.cursor == 0 ==> m.up() == m,
{
}

proof fn lemma_no_default_source(trees: Seq<Seq<TreeNodeView>>, from: int)
    requires
        0 <= from,
    ensures
        default_source(trees, None, from) is None,
    decreases trees.len() - from,
{
    if from < trees.len() {
        lemma_no_default_source(trees, from + 1);
    }
}

/// Without a default the menu of sources starts on the first one.
pub proof fn source_menu_starts_on_first(sources: Seq<SourceView>, trees: Seq<Seq<TreeNodeView>>)
    ensures
        source_menu(sources, None, trees).cursor == 0,
        source_menu(sources, None, trees).preselected is None,
{
    lemma_no_default_source(trees, 0);
}

/// Every source has its item, under its label: a locked one is marked as such, one with
/// an error bears the error.
pub proof fn every_source_has_its_item(
    sources: Seq<SourceView>,
    default: Option<SelectionView>,
    trees: Seq<Seq<TreeNodeView>>,
    i: int,
)
    requires
        0 <= i < sources.len(),
    ensures
        ({
            let items = source_menu(sources, default, trees).items;
            &&& items.len() == sources.len()
            &&& items[i].label == sources[i].label
            &&& items[i].state is Locked <==> sources[i].state is Encrypted
            &&& sources[i].state matches SourceStateView::Error(e) ==> items[i].state
                == Mark::Error(e)
            &&& items[i].state is Normal <==> sources[i].state is Mounted || sources[i].state
                is Static
            &&& path_text(sources[i].device).is_prefix_of(items[i].detail)
        }),
{
    let detail = source_menu(sources, default, trees).items[i].detail;
    let text = path_text(sources[i].device);
    assert(detail.subrange(0, text.len() as int) =~= text);
}

proof fn lemma_entry_position(entries: Seq<EntryView>, name: Seq<char>, from: int)
    requires
        0 <= from,
    ensures
        entry_position(entries, name, from) matches Some(i) ==> from <= i < entries.len()
            && entries[i].name == name && forall|j: int|
            from <= j < i ==> (#[trigger] entries[j]).name != name,
        entry_position(entries, name, from) is None ==> forall|j: int|
            from <= j < entries.len() ==> (#[trigger] entries[j]).name != name,
    decreases entries.len() - from,
{
    if from < entries.len() && entries[from].name != name {
        lemma_entry_position(entries, name, from + 1);
    }
}

/// Every entry has its item, with its name and command line. The one that is marked as
/// the default, and that the menu starts on, is the first of the default's name, where
/// the leaf is the default's.
pub proof fn every_entry_has_its_item(
    entries: Seq<EntryView>,
    default: Option<SelectionView>,
    leaf_path: Seq<u8>,
    i: int,
)
    requires
        0 <= i < entries.len(),
    ensures
        ({
            let menu = entry_menu(entries, default, leaf_path);
            &&& menu.items.len() == entries.len()
            &&& menu.items[i].label == entries[i].name
            &&& menu.items[i].detail == entries[i].cmdline
            &&& menu.items[i].state is Default || menu.items[i].state is Normal
            &&& menu.items[i].state is Default <==> (default matches Some(sel) && same_path(
                sel.leaf_path,
                leaf_path,
            ) && entries[i].name == sel.entry_name && forall|j: int|
                0 <= j < i ==> (#[trigger] entries[j]).name != sel.entry_name)
            &&& menu.items[i].state is Default ==> menu.cursor == i
        }),
{
    if let Some(sel) = default {
        lemma_entry_position(entries, sel.entry_name, 0);
        if let Some(k) = entry_position(entries, sel.entry_name, 0) {
            assert(entries[k].name == sel.entry_name);
        }
    }
}

/// A boot tree is listed from the top: a leaf with its path and the number of its
/// entries, a directory and behind it, one level deeper, what it holds.
pub proof fn tree_is_listed_from_the_top(
    a: Seq<TreeNodeView>,
    b: Seq<TreeNodeView>,
    leaf: LeafView,
    name: Seq<char>,
    depth: int,
)
    ensures
        flat_rows(a + b, depth) == flat_rows(a, depth) + flat_rows(b, depth),
        flat_rows(seq![TreeNodeView::Leaf(leaf)], depth) == seq![
            FlatRow {
                depth,
                kind: FlatKind::Leaf {
                    name: short_name(leaf.path),
                    entry_count: leaf.entries.len() as int,
                    path: leaf.path,
                },
            },
        ],
        flat_rows(seq![TreeNodeView::Dir { name, children: a }], depth) == seq![
            FlatRow { depth, kind: FlatKind::Dir { name } },
        ] + flat_rows(a, depth + 1),
        flat_rows(Seq::empty(), depth) == Seq::<FlatRow>::empty(),
    decreases b.len(),
{
    let one = seq![TreeNodeView::Leaf(leaf)];
    let dir = seq![TreeNodeView::Dir { name, children: a }];
    assert(one.drop_last() =~= Seq::empty());
    assert(dir.drop_last() =~= Seq::empty());
    reveal_with_fuel(flat_rows, 2);
    assert(flat_rows(one, depth) =~= seq![
        FlatRow {
            depth,
            kind: FlatKind::Leaf {
                name: short_name(leaf.path),
                entry_count: leaf.entries.len() as int,
                path: leaf.path,
            },
        },
    ]);
    assert(flat_rows(dir, depth) =~= seq![FlatRow { depth, kind: FlatKind::Dir { name } }]
        + flat_rows(a, depth + 1));
    if b.len() == 0 {
        assert(a + b =~= a);
    } else {
        tree_is_listed_from_the_top(a, b.drop_last(), leaf, name, depth);
        assert((a + b).drop_last() =~= a + b.drop_last());
        assert(flat_rows(a + b, depth) =~= flat_rows(a, depth) + flat_rows(b, depth));
    }
}

proof fn lemma_default_row(rows: Seq<FlatRow>, sel: SelectionView, k: int, from: int)
    requires
        0 <= from <= k < rows.len(),
        rows[k].kind matches FlatKind::Leaf { path, .. } && same_path(path, sel.leaf_path),
        forall|j: int|
            from <= j < k ==> ((#[trigger] rows[j]).kind matches FlatKind::Leaf { path, .. }
                ==> !same_path(path, sel.leaf_path)),
    ensures
        default_row(rows, Some(sel), from) == Some(k),
    decreases k - from,
{
    if from < k {
        assert(rows[from].kind matches FlatKind::Leaf { path, .. } ==> !same_path(
            path,
            sel.leaf_path,
        ));
        lemma_default_row(rows, sel, k, from + 1);
    }
}

/// The menu of a boot tree has an item for every row; the leaf of the default selection
/// is marked, and the menu starts on the first such.
pub proof fn every_row_has_its_item(rows: Seq<FlatRow>, sel: SelectionView, i: int)
    requires
        0 <= i < rows.len(),
    ensures
        ({
            let menu = tree_menu(rows, Some(sel));
            let is_default = rows[i].kind matches FlatKind::Leaf { path, .. } && same_path(
                path,
                sel.leaf_path,
            );
            &&& menu.items.len() == rows.len()
            &&& menu.items[i].state is Default <==> is_default
            &&& menu.items[i].state is Normal <==> !is_default
            &&& rows[i].kind matches FlatKind::Leaf { entry_count, .. } ==> menu.items[i].detail
                == decimal(entry_count as nat) + " entries"@
            &&& is_default && (forall|j: int|
                0 <= j < i ==> ((#[trigger] rows[j]).kind matches FlatKind::Leaf { path, .. }
                    ==> !same_path(path, sel.leaf_path))) ==> menu.cursor == i
        }),
{
    let is_default = rows[i].kind matches FlatKind::Leaf { path, .. } && same_path(
        path,
        sel.leaf_path,
    );
    if is_default && (forall|j: int|
        0 <= j < i ==> ((#[trigger] rows[j]).kind matches FlatKind::Leaf { path, .. }
            ==> !same_path(path, sel.leaf_path))) {
        lemma_default_row(rows, sel, i, 0);
    }
}

// --- Files ---

proof fn lemma_first_failure(s: Seq<ListedView>, from: int)
    requires
        0 <= from,
    ensures
        first_failure(s, from) is None <==> forall|i: int|
            from <= i < s.len() ==> (#[trigger] s[i]).is_dir is Ok,
        first_failure(s, from) matches Some(e) ==> exists|i: int|
            from <= i < s.len() && (#[trigger] s[i]).is_dir == Err::<bool, ErrorView>(e)
                && forall|j: int| from <= j < i ==> (#[trigger] s[j]).is_dir is Ok,
    decreases s.len() - from,
{
    if from < s.len() {
        match s[from].is_dir {
            Err(e) => {
                assert(s[from].is_dir == Err::<bool, ErrorView>(e));
            },
            Ok(_) => {
                lemma_first_failure(s, from + 1);
                if let Some(e) = first_failure(s, from + 1) {
                    let i = choose|i: int|
                        from + 1 <= i < s.len() && (#[trigger] s[i]).is_dir == Err::<
                            bool,
                            ErrorView,
                        >(e) && forall|j: int| from + 1 <= j < i ==> (#[trigger] s[j]).is_dir is Ok;
                    assert(s[i].is_dir == Err::<bool, ErrorView>(e));
                }
            },
        }
    }
}

/// Whether something shown in the directory `dir` is what was found there: under its
/// name and path, as a leaf only if it is a directory with a list of entries, and as
/// something that can be booted only if it is a file that starts like a kernel.
pub open spec fn shows_file(e: DirEntryView, dir: Seq<u8>, f: ListedFile) -> bool {
    &&& f.is_dir matches Ok(is_dir) && e.is_dir == is_dir
    &&& e.name == utf8_lossy(f.name@)
    &&& e.path == joined(dir, f.name@)
    &&& e.is_leaf <==> e.is_dir && f.is_leaf
    &&& e.is_bootable <==> !e.is_dir && ((f.head@.len() >= 2 && f.head@[0] == 0x4D && f.head@[1]
        == 0x5A) || (f.head@.len() >= 0x206 && f.head@[0x202] == 0x48 && f.head@[0x203] == 0x64
        && f.head@[0x204] == 0x72 && f.head@[0x205] == 0x53))
}

/// A directory is shown whole: everything that was found in it and nothing else. It is
/// not shown if it, or the kind of anything in it, could not be read.
pub proof fn directory_is_shown_whole(dir: Seq<u8>, files: Vec<ListedFile>, e: DirEntryView)
    ensures
        dir_entries_of(dir, Ok(files)) is Ok <==> forall|i: int|
            0 <= i < files@.len() ==> (#[trigger] files@[i]).is_dir is Ok,
        dir_entries_of(dir, Ok(files)) matches Ok(entries) ==> entries.len() == files@.len() && (
        entries.contains(e) <==> exists|i: int|
            0 <= i < files@.len() && shows_file(e, dir, #[trigger] files@[i])),
{
    let raw = views(files@);
    let s = sorted(raw, file_order());
    lemma_first_failure(s, 0);
    sorted_keeps_length(raw, file_order());
    if first_failure(s, 0) is None {
        assert forall|i: int| 0 <= i < files@.len() implies (#[trigger] files@[i]).is_dir is Ok by {
            let k = place_in_sorted(raw, file_order(), i);
            assert(s[k].is_dir is Ok);
            assert(raw[i] == files@[i]@);
        }
    }
    if forall|i: int| 0 <= i < files@.len() ==> (#[trigger] files@[i]).is_dir is Ok {
        assert forall|k: int| 0 <= k < s.len() implies (#[trigger] s[k]).is_dir is Ok by {
            let i = place_before_sorting(raw, file_order(), k);
            assert(files@[i].is_dir is Ok);
            assert(raw[i] == files@[i]@);
        }
    }
    if let Ok(entries) = dir_entries_of(dir, Ok(files)) {
        if entries.contains(e) {
            let k = choose|k: int| 0 <= k < entries.len() && entries[k] == e;
            let i = place_before_sorting(raw, file_order(), k);
            assert(files@[i].is_dir is Ok);
            assert(e == dir_entry(dir, files@[i]@));
            assert(shows_file(e, dir, files@[i]));
        }
        if exists|i: int| 0 <= i < files@.len() && shows_file(e, dir, #[trigger] files@[i]) {
            let i = choose|i: int|
                0 <= i < files@.len() && shows_file(e, dir, #[trigger] files@[i]);
            let k = place_in_sorted(raw, file_order(), i);
            assert(raw[i] == files@[i]@);
            assert(e == dir_entry(dir, s[k]));
            assert(entries[k] == e);
        }
    }
}

/// What is in a directory is shown in the order of the names, byte by byte.
pub proof fn files_in_name_order(
    dir: Seq<u8>,
    files: Vec<ListedFile>,
    entries: Seq<DirEntryView>,
    a: int,
    b: int,
)
    requires
        dir_entries_of(dir, Ok(files)) == Ok::<Seq<DirEntryView>, ErrorView>(entries),
        0 <= a < b < entries.len(),
    ensures
        exists|i: int, j: int|
            0 <= i < files@.len() && 0 <= j < files@.len() && shows_file(
                entries[a],
                dir,
                #[trigger] files@[i],
            ) && shows_file(entries[b], dir, #[trigger] files@[j]) && !bytes_before(
                files@[j].name@,
                files@[i].name@,
            ),
{
    let raw = views(files@);
    let before = file_order();
    let s = sorted(raw, before);
    assert forall|x: ListedView, y: ListedView| #[trigger] before(x, y) implies !before(y, x) by {
        bytes_order_total(x.name, y.name);
    }
    assert forall|x: ListedView, y: ListedView, z: ListedView|
        #![trigger before(x, y), before(y, z)]
        before(x, z) implies before(x, y) || before(y, z) by {
        bytes_order_total(x.name, y.name);
        bytes_order_total(y.name, z.name);
        bytes_order_total(x.name, z.name);
        if !before(x, y) && !before(y, z) {
            if x.name != y.name && y.name != z.name {
                bytes_order_transitive(z.name, y.name, x.name);
            }
        }
    }
    sorted_is_ordered_rearrangement(raw, before);
    assert(!before(s[b], s[a]));
    lemma_first_failure(s, 0);
    let i = place_before_sorting(raw, before, a);
    let j = place_before_sorting(raw, before, b);
    assert(s[a].is_dir is Ok && s[b].is_dir is Ok);
    assert(raw[i] == files@[i]@ && raw[j] == files@[j]@);
    assert(shows_file(entries[a], dir, files@[i]));
    assert(shows_file(entries[b], dir, files@[j]));
}

/// The menu of a directory has an item for everything in it: a directory ends in a
/// slash, and what can be booted is marked so.
pub proof fn every_file_has_its_item(entries: Seq<DirEntryView>, i: int)
    requires
        0 <= i < entries.len(),
    ensures
        ({
            let menu = file_menu(entries);
            &&& menu.items.len() == entries.len()
            &&& menu.cursor == 0
            &&& entries[i].is_dir ==> menu.items[i].label == entries[i].name.push('/')
            &&& !entries[i].is_dir ==> menu.items[i].label == entries[i].name
            &&& menu.items[i].detail.len() > 0 <==> entries[i].is_bootable
        }),
{
    reveal_strlit("/");
    reveal_strlit("[bootable]");
    assert(entries[i].name + "/"@ =~= entries[i].name.push('/'));
}

// --- The tree view ---

proof fn lemma_next_row(rows: Seq<Row>, from: int)
    requires
        0 <= from,
    ensures
        next_visible(rows, from) matches Some(j) ==> from <= j < rows.len() && rows[j].visible
            && forall|k: int| from <= k < j ==> !(#[trigger] rows[k]).visible,
        next_visible(rows, from) is None ==> forall|k: int|
            from <= k < rows.len() ==> !(#[trigger] rows[k]).visible,
    decreases rows.len() - from,
{
    if from < rows.len() && !rows[from].visible {
        lemma_next_row(rows, from + 1);
    }
}

proof fn lemma_row_before(rows: Seq<Row>, end: int, depth: Option<int>)
    requires
        end <= rows.len(),
    ensures
        visible_before(rows, end, depth) matches Some(j) ==> 0 <= j < end && rows[j].visible && (
        depth matches Some(d) ==> rows[j].depth < d) && forall|k: int|
            j < k < end && (#[trigger] rows[k]).visible ==> (depth matches Some(d) && rows[k].depth
                >= d),
        visible_before(rows, end, depth) is None ==> forall|k: int|
            0 <= k < end && (#[trigger] rows[k]).visible ==> (depth matches Some(d)
                && rows[k].depth >= d),
    decreases end,
{
    if end > 0 && !(rows[end - 1].visible && (depth matches Some(d) ==> rows[end - 1].depth < d)) {
        lemma_row_before(rows, end - 1, depth);
    }
}

/// Going down leads to the nearest visible row below, and nowhere if there is none;
/// going up to the nearest above. Neither changes the rows.
pub proof fn cursor_goes_to_nearest_visible(v: ViewState)
    requires
        0 <= v.cursor < v.rows.len(),
    ensures
        v.down().rows == v.rows,
        v.up().rows == v.rows,
        (exists|k: int| v.cursor < k < v.rows.len() && (#[trigger] v.rows[k]).visible) ==> v.cursor
            < v.down().cursor < v.rows.len() && v.rows[v.down().cursor].visible,
        forall|k: int| v.cursor < k < v.down().cursor ==> !(#[trigger] v.rows[k]).visible,
        (forall|k: int| v.cursor < k < v.rows.len() ==> !(#[trigger] v.rows[k]).visible)
            ==> v.down() == v,
        (exists|k: int| 0 <= k < v.cursor && (#[trigger] v.rows[k]).visible) ==> 0 <= v.up().cursor
            < v.cursor && v.rows[v.up().cursor].visible,
        forall|k: int| v.up().cursor < k < v.cursor ==> !(#[trigger] v.rows[k]).visible,
        (forall|k: int| 0 <= k < v.cursor ==> !(#[trigger] v.rows[k]).visible) ==> v.up() == v,
{
    lemma_next_row(v.rows, v.cursor + 1);
    lemma_row_before(v.rows, v.cursor, None);
}

/// What can be opened and closed: directories and leaves, and sources that are mounted
/// or static; never an entry, nor a source that is locked, empty or has an error.
pub proof fn what_can_be_opened(v: ViewState)
    requires
        0 <= v.cursor < v.rows.len(),
    ensures
        v.toggle() is Some <==> (match v.rows[v.cursor].kind {
            RowKind::Dir { .. } => true,
            RowKind::Leaf { .. } => true,
            RowKind::Entry { .. } => false,
            RowKind::Source { state, .. } => state is Mounted || state is Static,
        }),
        v.expand() is Some <==> v.toggle() is Some && !v.rows[v.cursor].expanded,
        v.rows[v.cursor].expanded && !(v.rows[v.cursor].kind is Entry) ==> v.collapse()
            == v.toggle(),
{
}

/// Opening or closing a row changes whether it is open, and otherwise nothing of any
/// row but whether it is seen; a row is seen exactly if every row above it that it
/// belongs to is open.
pub proof fn toggling_changes_one_row(v: ViewState, i: int)
    requires
        0 <= v.cursor < v.rows.len(),
        v.toggle() is Some,
        0 <= i < v.rows.len(),
    ensures
        ({
            let rows = v.toggle()->0.rows;
            &&& rows.len() == v.rows.len()
            &&& rows[i].kind == v.rows[i].kind
            &&& rows[i].depth == v.rows[i].depth
            &&& rows[i].is_default == v.rows[i].is_default
            &&& i != v.cursor ==> rows[i].expanded == v.rows[i].expanded
            &&& i == v.cursor ==> rows[i].expanded == !v.rows[i].expanded
            &&& rows[i].visible <==> forall|j: int|
                0 <= j < i && (forall|k: int|
                    j < k <= i ==> (#[trigger] rows[k]).depth > rows[j].depth) ==> (
                #[trigger] rows[j]).expanded || rows[j].kind is Entry
        }),
{
    let flipped = v.rows.update(
        v.cursor,
        Row { expanded: !v.rows[v.cursor].expanded, ..v.rows[v.cursor] },
    );
    let rows = v.toggle()->0.rows;
    assert(forall|k: int| 0 <= k < rows.len() ==> (#[trigger] rows[k]).depth == flipped[k].depth);
    if is_shown(flipped, i) {
        assert forall|j: int|
            0 <= j < i && (forall|k: int|
                j < k <= i ==> (#[trigger] rows[k]).depth > rows[j].depth) implies (
        #[trigger] rows[j]).expanded || rows[j].kind is Entry by {
            assert forall|k: int| j < k <= i implies (#[trigger] flipped[k]).depth
                > flipped[j].depth by {
                assert(rows[k].depth > rows[j].depth);
            }
            assert(is_above(flipped, j, i));
        }
    }
    if forall|j: int|
        0 <= j < i && (forall|k: int|
            j < k <= i ==> (#[trigger] rows[k]).depth > rows[j].depth) ==> (
        #[trigger] rows[j]).expanded || rows[j].kind is Entry {
        assert forall|j: int| #[trigger] is_above(flipped, j, i) implies flipped[j].expanded
            || flipped[j].kind is Entry by {
            assert forall|k: int| j < k <= i implies (#[trigger] rows[k]).depth
                > rows[j].depth by {
                assert(flipped[k].depth > flipped[j].depth);
            }
            assert(rows[j].expanded || rows[j].kind is Entry);
        }
    }
}

/// From a row that is closed or an entry, folding leads to the nearest visible row above
/// that is less deep, and nowhere if there is none.
pub proof fn folding_leads_to_parent(v: ViewState)
    requires
        0 <= v.cursor < v.rows.len(),
        !v.rows[v.cursor].expanded || v.rows[v.cursor].kind is Entry,
    ensures
        v.collapse() matches Some(w) ==> w.rows == v.rows && 0 <= w.cursor < v.cursor
            && v.rows[w.cursor].visible && v.rows[w.cursor].depth < v.rows[v.cursor].depth
            && forall|k: int|
            w.cursor < k < v.cursor && (#[trigger] v.rows[k]).visible ==> v.rows[k].depth
                >= v.rows[v.cursor].depth,
        v.collapse() is None ==> forall|k: int|
            0 <= k < v.cursor && (#[trigger] v.rows[k]).visible ==> v.rows[k].depth
                >= v.rows[v.cursor].depth,
{
    lemma_row_before(v.rows, v.cursor, Some(v.rows[v.cursor].depth));
}

proof fn lemma_source_at(rows: Seq<Row>, r: int, at: int)
    requires
        0 <= r <= at < rows.len(),
        rows[r].kind is Source,
        forall|k: int| r < k <= at ==> !((#[trigger] rows[k]).kind is Source),
    ensures
        source_at(rows, at) == Some(rows[r].kind->Source_idx),
    decreases at - r,
{
    if r < at {
        assert(!(rows[at].kind is Source));
        lemma_source_at(rows, r, at - 1);
    }
}

/// A row belongs to the source of the nearest source row above it.
pub proof fn row_belongs_to_source_above(rows: Seq<Row>, r: int, at: int)
    requires
        0 <= r <= at < rows.len(),
        rows[r].kind is Source,
        forall|k: int| r < k <= at ==> !((#[trigger] rows[k]).kind is Source),
    ensures
        source_at(rows, at) == Some(rows[r].kind->Source_idx),
{
    lemma_source_at(rows, r, at);
}

/// The rows of a boot tree stand in the order of the tree.
pub proof fn rows_in_tree_order(
    a: Seq<TreeNodeView>,
    b: Seq<TreeNodeView>,
    depth: int,
    source_idx: int,
    default: Option<SelectionView>,
)
    ensures
        tree_rows(a + b, depth, source_idx, default) == tree_rows(a, depth, source_idx, default)
            + tree_rows(b, depth, source_idx, default),
    decreases b.len(),
{
    if b.len() == 0 {
        assert(a + b =~= a);
        assert(tree_rows(a, depth, source_idx, default) + tree_rows(b, depth, source_idx, default)
            =~= tree_rows(a, depth, source_idx, default));
    } else {
        rows_in_tree_order(a, b.drop_last(), depth, source_idx, default);
        assert((a + b).drop_last() =~= a + b.drop_last());
        assert(tree_rows(a + b, depth, source_idx, default) =~= tree_rows(
            a,
            depth,
            source_idx,
            default,
        ) + tree_rows(b, depth, source_idx, default));
    }
}

/// A leaf has a row of its own and, one level deeper, a row for each of its entries; it
/// is open exactly if it is the leaf of the default selection, and an entry is the
/// default exactly if its leaf and its name are the default's.
pub proof fn rows_of_a_leaf(
    leaf: LeafView,
    depth: int,
    source_idx: int,
    default: Option<SelectionView>,
    i: int,
)
    ensures
        ({
            let rows = tree_rows(seq![TreeNodeView::Leaf(leaf)], depth, source_idx, default);
            let is_home = default matches Some(sel) && same_path(leaf.path, sel.leaf_path);
            &&& rows.len() == 1 + leaf.entries.len()
            &&& rows[0].kind == (RowKind::Leaf {
                name: short_name(leaf.path),
                path: leaf.path,
                entry_count: leaf.entries.len() as int,
            })
            &&& rows[0].depth == depth
            &&& rows[0].expanded <==> is_home
            &&& !rows[0].is_default
            &&& 0 <= i < leaf.entries.len() ==> {
                &&& rows[1 + i].kind == (RowKind::Entry { entry: leaf.entries[i], source_idx })
                &&& rows[1 + i].depth == depth + 1
                &&& rows[1 + i].is_default <==> is_home && leaf.entries[i].name
                    == default->0.entry_name
            }
        }),
{
    let one = seq![TreeNodeView::Leaf(leaf)];
    assert(one.drop_last() =~= Seq::empty());
    reveal_with_fuel(tree_rows, 2);
    assert(tree_rows(one, depth, source_idx, default) =~= leaf_rows(
        leaf,
        depth,
        source_idx,
        default,
    ));
}

/// A directory has a row of its own and, one level deeper, the rows of what it holds; it
/// is open exactly if the leaf of the default selection is below it.
pub proof fn rows_of_a_directory(
    name: Seq<char>,
    children: Seq<TreeNodeView>,
    depth: int,
    source_idx: int,
    default: Option<SelectionView>,
)
    ensures
        ({
            let rows = tree_rows(
                seq![TreeNodeView::Dir { name, children }],
                depth,
                source_idx,
                default,
            );
            &&& rows.len() > 0
            &&& rows[0].kind == (RowKind::Dir { name })
            &&& rows[0].depth == depth
            &&& rows[0].expanded <==> (default matches Some(sel) && exists|k: int|
                0 <= k < leaves(children).len() && same_path(
                    (#[trigger] leaves(children)[k]).path,
                    sel.leaf_path,
                ))
            &&& !rows[0].is_default
            &&& rows.skip(1) == tree_rows(children, depth + 1, source_idx, default)
        }),
{
    let one = seq![TreeNodeView::Dir { name, children }];
    assert(one.drop_last() =~= Seq::empty());
    reveal_with_fuel(tree_rows, 2);
    let rows = tree_rows(one, depth, source_idx, default);
    assert(rows =~= node_rows(one[0], depth, source_idx, default));
    assert(rows.skip(1) =~= tree_rows(children, depth + 1, source_idx, default));
}

/// A source has a row of its own and, if it is open and has a boot tree, the rows of that
/// tree one level deeper; a source that is locked, has an error or an empty tree has
/// nothing below it.
pub proof fn rows_of_a_source(
    source: SourceView,
    i: int,
    trees: Seq<Seq<TreeNodeView>>,
    default: Option<SelectionView>,
)
    requires
        0 <= i < trees.len(),
    ensures
        ({
            let rows = source_rows(source, i, trees, default);
            let open = (source.state is Mounted || source.state is Static) && trees[i].len() > 0;
            &&& rows.len() > 0
            &&& rows[0].depth == 0
            &&& rows[0].visible
            &&& rows[0].kind is Source
            &&& rows[0].kind->Source_idx == i
            &&& rows[0].kind->Source_label == source.label
            &&& rows[0].kind->Source_state is Encrypted <==> source.state is Encrypted
            &&& source.state matches SourceStateView::Error(e) ==> rows[0].kind->Source_state
                == ShownState::Error(e)
            &&& rows[0].kind->Source_state is Error ==> source.state is Error
            &&& rows[0].kind->Source_state is Mounted <==> source.state is Mounted && open
            &&& rows[0].kind->Source_state is Static <==> source.state is Static && open
            &&& open ==> rows.skip(1) == tree_rows(trees[i], 1, i, default)
            &&& !open ==> rows.len() == 1
            &&& rows[0].expanded ==> open
        }),
{
    let rows = source_rows(source, i, trees, default);
    if (source.state is Mounted || source.state is Static) && trees[i].len() > 0 {
        assert(rows.skip(1) =~= tree_rows(trees[i], 1, i, default));
    }
}

/// The first source whose tree holds the leaf of the default selection is the one that
/// is open from the start.
pub proof fn source_of_the_default_is_open(
    source: SourceView,
    i: int,
    trees: Seq<Seq<TreeNodeView>>,
    sel: SelectionView,
    k: int,
)
    requires
        0 <= i < trees.len(),
        source.state is Mounted || source.state is Static,
        0 <= k < leaves(trees[i]).len(),
        same_path(leaves(trees[i])[k].path, sel.leaf_path),
        forall|j: int, m: int|
            0 <= j < i && 0 <= m < leaves(trees[j]).len() ==> !same_path(
                (#[trigger] leaves(trees[j])[m]).path,
                sel.leaf_path,
            ),
    ensures
        source_rows(source, i, trees, Some(sel))[0].expanded,
        forall|j: int|
            0 <= j < trees.len() && j != i ==> !(#[trigger] source_rows(
                source,
                j,
                trees,
                Some(sel),
            ))[0].expanded,
{
    assert(trees[i].len() > 0) by {
        if trees[i].len() == 0 {
            assert(leaves(trees[i]).len() == 0);
        }
    }
    lemma_default_source(trees, sel, i, k, 0);
}

proof fn lemma_default_source(
    trees: Seq<Seq<TreeNodeView>>,
    sel: SelectionView,
    i: int,
    k: int,
    from: int,
)
    requires
        0 <= from <= i < trees.len(),
        0 <= k < leaves(trees[i]).len(),
        same_path(leaves(trees[i])[k].path, sel.leaf_path),
        forall|j: int, m: int|
            0 <= j < i && 0 <= m < leaves(trees[j]).len() ==> !same_path(
                (#[trigger] leaves(trees[j])[m]).path,
                sel.leaf_path,
            ),
    ensures
        default_source(trees, Some(sel), from) == Some(i),
    decreases i - from,
{
    if from < i {
        assert(!leads_to_default(trees[from], Some(sel)));
        lemma_default_source(trees, sel, i, k, from + 1);
    }
}

/// The view of several sources has the rows of the first and behind them, for each
/// further source, its own.
pub proof fn rows_of_all_sources(
    sources: Seq<SourceView>,
    trees: Seq<Seq<TreeNodeView>>,
    default: Option<SelectionView>,
    i: int,
)
    requires
        0 <= i < sources.len(),
    ensures
        ({
            let all = sources_rows(sources, trees, default, sources.len() as int);
            let own = source_rows(sources[i], i, trees, default);
            let at = sources_rows(sources, trees, default, i).len() as int;
            &&& at + own.len() <= all.len()
            &&& all.subrange(at, at + own.len()) == own
            &&& built(sources, trees, default).rows.len() == all.len()
        }),
{
    lemma_rows_of_sources(sources, trees, default, sources.len() as int, i);
}

proof fn lemma_rows_of_sources(
    sources: Seq<SourceView>,
    trees: Seq<Seq<TreeNodeView>>,
    default: Option<SelectionView>,
    n: int,
    i: int,
)
    requires
        0 <= i < n <= sources.len(),
    ensures
        ({
            let all = sources_rows(sources, trees, default, n);
            let own = source_rows(sources[i], i, trees, default);
            let at = sources_rows(sources, trees, default, i).len() as int;
            &&& at + own.len() <= all.len()
            &&& all.subrange(at, at + own.len()) == own
        }),
    decreases n,
{
    let all = sources_rows(sources, trees, default, n);
    let before = sources_rows(sources, trees, default, n - 1);
    let own = source_rows(sources[i], i, trees, default);
    let at = sources_rows(sources, trees, default, i).len() as int;
    if i < n - 1 {
        lemma_rows_of_sources(sources, trees, default, n - 1, i);
        assert(all.subrange(at, at + own.len()) =~= before.subrange(at, at + own.len()));
    } else {
        assert(all.subrange(at, at + own.len()) =~= own);
    }
}

proof fn lemma_last_default(rows: Seq<Row>, n: int)
    requires
        n <= rows.len(),
    ensures
        last_default(rows, n) matches Some(i) ==> 0 <= i < n && rows[i].is_default && forall|j: int|
            i < j < n ==> !(#[trigger] rows[j]).is_default,
        last_default(rows, n) is None ==> forall|j: int|
            0 <= j < n ==> !(#[trigger] rows[j]).is_default,
    decreases n,
{
    if n > 0 && !rows[n - 1].is_default {
        lemma_last_default(rows, n - 1);
    }
}

/// The view starts on the last row that is a default, if that can be seen, and else on
/// the first row.
pub proof fn view_starts_on_last_default(
    sources: Seq<SourceView>,
    trees: Seq<Seq<TreeNodeView>>,
    default: Option<SelectionView>,
    i: int,
)
    ensures
        ({
            let v = built(sources, trees, default);
            let is_last = 0 <= i < v.rows.len() && v.rows[i].is_default && forall|j: int|
                i < j < v.rows.len() ==> !(#[trigger] v.rows[j]).is_default;
            &&& is_last && v.rows[i].visible ==> v.cursor == i
            &&& is_last && !v.rows[i].visible ==> v.cursor == 0
            &&& (forall|j: int|
                0 <= j < v.rows.len() ==> !(#[trigger] v.rows[j]).is_default) ==> v.cursor == 0
        }),
{
    let v = built(sources, trees, default);
    lemma_last_default(v.rows, v.rows.len() as int);
}

// --- The screen ---

/// Whether a text stands in another.
pub open spec fn stands_in(part: Seq<char>, text: Seq<char>) -> bool {
    exists|at: int|
        0 <= at <= text.len() - part.len() && #[trigger] text.subrange(at, at + part.len()) == part
}

proof fn lemma_stands_in(a: Seq<char>, part: Seq<char>, b: Seq<char>)
    ensures
        stands_in(part, a + part + b),
{
    let text = a + part + b;
    let at = a.len() as int;
    assert(text.subrange(at, at + part.len()) =~= part);
}

/// A text stands in any text that starts with it.
pub proof fn stands_in_front(part: Seq<char>, b: Seq<char>)
    ensures
        stands_in(part, part + b),
{
    lemma_stands_in(Seq::empty(), part, b);
    assert(Seq::<char>::empty() + part + b =~= part + b);
}

/// A text stands in any text that ends with it.
pub proof fn stands_at_end(a: Seq<char>, part: Seq<char>)
    ensures
        stands_in(part, a + part),
{
    lemma_stands_in(a, part, Seq::empty());
    assert(a + part + Seq::<char>::empty() =~= a + part);
}

/// What stands in a text stands wherever that text stands.
pub proof fn standing_in_is_transitive(a: Seq<char>, b: Seq<char>, c: Seq<char>)
    requires
        stands_in(a, b),
        stands_in(b, c),
    ensures
        stands_in(a, c),
{
    let i = choose|i: int|
        0 <= i <= b.len() - a.len() && #[trigger] b.subrange(i, i + a.len()) == a;
    let j = choose|j: int|
        0 <= j <= c.len() - b.len() && #[trigger] c.subrange(j, j + b.len()) == b;
    let k = j + i;
    let x = c.subrange(k, k + a.len());
    assert forall|m: int| 0 <= m < a.len() implies #[trigger] x[m] == a[m] by {
        assert(c.subrange(j, j + b.len())[i + m] == b[i + m]);
        assert(b.subrange(i, i + a.len())[m] == b[i + m]);
    }
    assert(x =~= a);
}

proof fn lemma_stands_in_longer(part: Seq<char>, a: Seq<char>, text: Seq<char>, b: Seq<char>)
    requires
        stands_in(part, text),
    ensures
        stands_in(part, a + text + b),
{
    let at = choose|at: int|
        0 <= at <= text.len() - part.len() && #[trigger] text.subrange(at, at + part.len()) == part;
    let long = a + text + b;
    let to = a.len() + at;
    assert(long.subrange(to, to + part.len()) =~= text.subrange(at, at + part.len()));
}

proof fn lemma_item_stands_in(menu: MenuView, n: int, i: int, part: Seq<char>)
    requires
        0 <= i < n,
        stands_in(part, item_line(menu.items[i], i == menu.cursor)),
    ensures
        stands_in(part, item_lines(menu, n)),
    decreases n,
{
    let before = item_lines(menu, n - 1);
    let line = item_line(menu.items[n - 1], n - 1 == menu.cursor);
    if i < n - 1 {
        lemma_item_stands_in(menu, n - 1, i, part);
        lemma_stands_in_longer(part, Seq::empty(), before, line);
        assert(Seq::<char>::empty() + before + line =~= item_lines(menu, n));
    } else {
        lemma_stands_in_longer(part, before, line, Seq::empty());
        assert(before + line + Seq::<char>::empty() =~= item_lines(menu, n));
    }
}

/// Every item of a menu is on the screen, behind the sign of its state; so are its
/// detail, the title and the hint.
pub proof fn every_item_is_on_the_screen(
    title: Seq<char>,
    breadcrumb: Seq<char>,
    menu: MenuView,
    hint: Seq<char>,
    i: int,
)
    requires
        0 <= i < menu.items.len(),
    ensures
        ({
            let screen = menu_screen(title, breadcrumb, menu, hint);
            let sign = match menu.items[i].state {
                Mark::Default => '*',
                Mark::Locked => 'L',
                Mark::Error(_) => '!',
                Mark::Normal => ' ',
            };
            &&& stands_in(seq![sign, ' '] + menu.items[i].label, screen)
            &&& stands_in(menu.items[i].detail, screen)
            &&& stands_in(title, screen)
            &&& stands_in(breadcrumb, screen)
            &&& stands_in(hint, screen)
        }),
{
    lemma_item_line(menu.items[i], i == menu.cursor);
    let n = menu.items.len() as int;
    let lines = item_lines(menu, n);
    let top = title_bar(breadcrumb) + heading(title);
    let sign = match menu.items[i].state {
        Mark::Default => '*',
        Mark::Locked => 'L',
        Mark::Error(_) => '!',
        Mark::Normal => ' ',
    };
    let named = seq![sign, ' '] + menu.items[i].label;
    lemma_item_stands_in(menu, n, i, named);
    lemma_item_stands_in(menu, n, i, menu.items[i].detail);
    lemma_stands_in_longer(named, top, lines, hint_bar(hint));
    lemma_stands_in_longer(menu.items[i].detail, top, lines, hint_bar(hint));
    lemma_title_stands_in(title, breadcrumb, lines, hint_bar(hint));
    lemma_breadcrumb_stands_in(breadcrumb, heading(title) + lines + hint_bar(hint));
    let rest = heading(title) + lines + hint_bar(hint);
    assert(title_bar(breadcrumb) + rest =~= top + lines + hint_bar(hint));
    lemma_hint_stands_in(top + lines, hint);
}

proof fn lemma_title_stands_in(
    title: Seq<char>,
    breadcrumb: Seq<char>,
    lines: Seq<char>,
    bottom: Seq<char>,
)
    ensures
        stands_in(title, title_bar(breadcrumb) + heading(title) + lines + bottom),
{
    let bar = title_bar(breadcrumb);
    let bold = "\x1b[1m"@;
    let plain = "\x1b[0m"@;
    let space = " "@;
    let line = "\r\n"@;
    let a = bar + bold + space;
    let b = line + plain + line + lines + bottom;
    lemma_stands_in(a, title, b);
    assert(bar + (bold + space + title + line + plain + line) + lines + bottom =~= a + title + b);
}

proof fn lemma_breadcrumb_stands_in(breadcrumb: Seq<char>, rest: Seq<char>)
    ensures
        stands_in(breadcrumb, title_bar(breadcrumb) + rest),
{
    let screen = title_bar(breadcrumb) + rest;
    if breadcrumb.len() > 0 {
        let name = program_name();
        let dim = "\x1b[2m"@;
        let arrow = " > "@;
        let plain = "\x1b[0m"@;
        let lines = "\r\n\r\n"@;
        let a = name + dim + arrow;
        let b = plain + lines + rest;
        lemma_stands_in(a, breadcrumb, b);
        assert(name + (dim + arrow + breadcrumb + plain) + lines + rest =~= a + breadcrumb + b);
    } else {
        lemma_stands_in(Seq::empty(), breadcrumb, screen);
        assert(Seq::<char>::empty() + breadcrumb + screen =~= screen);
    }
}

proof fn lemma_hint_stands_in(top: Seq<char>, hint: Seq<char>)
    ensures
        stands_in(hint, top + hint_bar(hint)),
{
    let line = "\r\n"@;
    let dim = "\x1b[2m"@;
    let space = " "@;
    let plain = "\x1b[0m"@;
    let a = top + line + dim + space;
    lemma_stands_in(a, hint, plain);
    assert(top + (line + dim + space + hint + plain) =~= a + hint + plain);
}

proof fn lemma_item_line(item: ItemView, is_cursor: bool)
    ensures
        ({
            let sign = match item.state {
                Mark::Default => '*',
                Mark::Locked => 'L',
                Mark::Error(_) => '!',
                Mark::Normal => ' ',
            };
            &&& stands_in(seq![sign, ' '] + item.label, item_line(item, is_cursor))
            &&& stands_in(item.detail, item_line(item, is_cursor))
        }),
{
    reveal_strlit("*");
    reveal_strlit("L");
    reveal_strlit("!");
    reveal_strlit(" ");
    let sign = match item.state {
        Mark::Default => '*',
        Mark::Locked => 'L',
        Mark::Error(_) => '!',
        Mark::Normal => ' ',
    };
    let line = item_line(item, is_cursor);
    let start = if is_cursor {
        "\x1b[7m"@
    } else {
        Seq::empty()
    };
    let stop = if is_cursor {
        "\x1b[0m"@
    } else {
        Seq::empty()
    };
    let named = seq![sign, ' '] + item.label;
    let a = " "@ + start + " "@;
    let b = item_end(item.detail, is_cursor) + "\r\n"@;
    assert(mark_sign(item.state) =~= seq![sign]);
    assert(line =~= a + named + b);
    lemma_stands_in(a, named, b);
    if item.detail.len() > 0 {
        let c = a + named + stop + "\x1b[2m"@ + "  "@;
        let d = "\x1b[0m"@ + "\r\n"@;
        assert(line =~= c + item.detail + d);
        lemma_stands_in(c, item.detail, d);
    } else {
        lemma_stands_in(Seq::empty(), item.detail, line);
        assert(Seq::<char>::empty() + item.detail + line =~= line);
    }
}

proof fn lemma_row_stands_in(v: ViewState, n: int, i: int, part: Seq<char>)
    requires
        0 <= i < n,
        stands_in(part, row_line(v.rows[i], i == v.cursor)),
    ensures
        stands_in(part, row_lines(v, n)),
    decreases n,
{
    let before = row_lines(v, n - 1);
    let line = row_line(v.rows[n - 1], n - 1 == v.cursor);
    if i < n - 1 {
        lemma_row_stands_in(v, n - 1, i, part);
        lemma_stands_in_longer(part, Seq::empty(), before, line);
        assert(Seq::<char>::empty() + before + line =~= row_lines(v, n));
    } else {
        lemma_stands_in_longer(part, before, line, Seq::empty());
        assert(before + line + Seq::<char>::empty() =~= row_lines(v, n));
    }
}

/// Every row of the tree view that can be seen is on the screen: a source under its
/// label, a directory under its name, a leaf under its own, an entry under that of the
/// entry; the default entry with its sign.
pub proof fn every_visible_row_is_on_the_screen(v: ViewState, i: int)
    requires
        0 <= i < v.rows.len(),
        v.rows[i].visible,
    ensures
        ({
            let screen = tree_view_screen(v);
            match v.rows[i].kind {
                RowKind::Source { label, state, .. } => match state {
                    ShownState::Encrypted => stands_in(seq!['L', ' '] + label, screen),
                    ShownState::Error(_) => stands_in(seq!['!', ' '] + label, screen),
                    ShownState::Empty => stands_in(seq![' ', ' '] + label, screen),
                    _ => stands_in(
                        seq![
                            if v.rows[i].expanded {
                                '-'
                            } else {
                                '+'
                            },
                            ' ',
                        ] + label,
                        screen,
                    ),
                },
                RowKind::Dir { name } => stands_in(
                    seq![
                        if v.rows[i].expanded {
                            '-'
                        } else {
                            '+'
                        },
                        ' ',
                    ] + name.push('/'),
                    screen,
                ),
                RowKind::Leaf { name, .. } => stands_in(
                    seq![
                        if v.rows[i].expanded {
                            '-'
                        } else {
                            '+'
                        },
                        ' ',
                    ] + name,
                    screen,
                ),
                RowKind::Entry { entry, .. } => stands_in(
                    seq![
                        if v.rows[i].is_default {
                            '*'
                        } else {
                            ' '
                        },
                        ' ',
                    ] + entry.name,
                    screen,
                ),
            }
        }),
{
    let r = v.rows[i];
    let named = row_sign(r) + row_name(r);
    let start = if i == v.cursor {
        "\x1b[7m"@
    } else {
        Seq::empty()
    };
    let stop = if i == v.cursor {
        "\x1b[0m"@
    } else {
        Seq::empty()
    };
    let a = " "@ + start + spaces((2 * r.depth) as nat);
    let b = stop + "\r\n"@;
    assert(row_line(r, i == v.cursor) =~= a + named + b);
    lemma_stands_in(a, named, b);
    let n = v.rows.len() as int;
    lemma_row_stands_in(v, n, i, named);
    let top = title_bar(Seq::empty()) + heading("Boot Sources"@);
    let bottom = hint_bar(
        "↑↓ navigate  ←→ fold  Enter select  f full filesystem  r rescan  s shell  q quit"@,
    );
    lemma_stands_in_longer(named, top, row_lines(v, n), bottom);
    assert(tree_view_screen(v) =~= top + row_lines(v, n) + bottom);
    reveal_strlit("L ");
    reveal_strlit("! ");
    reveal_strlit("  ");
    reveal_strlit("* ");
    reveal_strlit("- ");
    reveal_strlit("+ ");
    reveal_strlit("/");
    assert("L "@ =~= seq!['L', ' ']);
    assert("! "@ =~= seq!['!', ' ']);
    assert("  "@ =~= seq![' ', ' ']);
    assert("* "@ =~= seq!['*', ' ']);
    assert("- "@ =~= seq!['-', ' ']);
    assert("+ "@ =~= seq!['+', ' ']);
    if let RowKind::Dir { name } = r.kind {
        assert(name + "/"@ =~= name.push('/'));
    }
}

proof fn lemma_hidden_row(v: ViewState, i: int, other: Row, n: int)
    requires
        0 <= i < v.rows.len(),
        n <= v.rows.len(),
        !v.rows[i].visible,
        !other.visible,
    ensures
        row_lines(ViewState { rows: v.rows.update(i, other), ..v }, n) == row_lines(v, n),
    decreases n,
{
    if n > 0 {
        lemma_hidden_row(v, i, other, n - 1);
    }
}

/// A row that cannot be seen leaves no trace on the screen.
pub proof fn hidden_rows_are_not_on_the_screen(v: ViewState, i: int, other: Row)
    requires
        0 <= i < v.rows.len(),
        !v.rows[i].visible,
        !other.visible,
    ensures
        tree_view_screen(ViewState { rows: v.rows.update(i, other), ..v }) == tree_view_screen(v),
{
    lemma_hidden_row(v, i, other, v.rows.len() as int);
}

pub(crate) proof fn lemma_stands_in_before(part: Seq<char>, text: Seq<char>, b: Seq<char>)
    requires
        stands_in(part, text),
    ensures
        stands_in(part, text + b),
{
    lemma_stands_in_longer(part, Seq::empty(), text, b);
    assert(Seq::<char>::empty() + text + b =~= text + b);
}

proof fn lemma_stands_in_behind(part: Seq<char>, a: Seq<char>, text: Seq<char>)
    requires
        stands_in(part, text),
    ensures
        stands_in(part, a + text),
{
    lemma_stands_in_longer(part, a, text, Seq::empty());
    assert(a + text + Seq::<char>::empty() =~= a + text);
}

/// The prompt has one sign for each byte of the passphrase and is otherwise the same for
/// every passphrase.
pub proof fn prompt_shows_length(
    source_label: Seq<char>,
    a: Seq<char>,
    b: Seq<char>,
    error: Option<Seq<char>>,
)
    ensures
        passphrase_screen(source_label, a, error).len() - encode_utf8(a).len() == passphrase_screen(
            source_label,
            b,
            error,
        ).len() - encode_utf8(b).len(),
{
}

/// The prompt shows the source that is to be unlocked, and the error if there is one.
pub proof fn prompt_shows_source_and_error(
    source_label: Seq<char>,
    input: Seq<char>,
    error: Option<Seq<char>>,
)
    ensures
        stands_in(source_label, passphrase_screen(source_label, input, error)),
        error matches Some(e) ==> stands_in(e, passphrase_screen(source_label, input, error)),
{
    let stars = asterisks(encode_utf8(input).len());
    let hint = hint_bar("Enter submit  Esc cancel"@);
    let a = program_name() + crumb(source_label);
    let b = a + "\r\n\r\n"@;
    let c = b + heading("Unlock Encrypted Source"@);
    let d = c + " Passphrase: "@;
    let e = d + stars;
    let f = e + "\x1b[?25h"@;
    let g = f + "\r\n"@;
    let h = g + error_lines(error);
    lemma_stands_in("\x1b[2m"@ + " > "@, source_label, "\x1b[0m"@);
    lemma_stands_in_behind(source_label, program_name(), crumb(source_label));
    lemma_stands_in_before(source_label, a, "\r\n\r\n"@);
    lemma_stands_in_before(source_label, b, heading("Unlock Encrypted Source"@));
    lemma_stands_in_before(source_label, c, " Passphrase: "@);
    lemma_stands_in_before(source_label, d, stars);
    lemma_stands_in_before(source_label, e, "\x1b[?25h"@);
    lemma_stands_in_before(source_label, f, "\r\n"@);
    lemma_stands_in_before(source_label, g, error_lines(error));
    lemma_stands_in_before(source_label, h, hint);
    if let Some(text) = error {
        lemma_stands_in("\r\n"@ + "\x1b[1m"@ + " Error: "@ + "\x1b[0m"@, text, "\r\n"@);
        lemma_stands_in_behind(text, g, error_lines(error));
        lemma_stands_in_before(text, h, hint);
    }
}

/// The item under the cursor, and no other, is shown reversed.
pub proof fn cursor_is_shown_reversed(
    title: Seq<char>,
    breadcrumb: Seq<char>,
    menu: MenuView,
    hint: Seq<char>,
    i: int,
)
    requires
        0 <= i < menu.items.len(),
    ensures
        ({
            let screen = menu_screen(title, breadcrumb, menu, hint);
            let sign = match menu.items[i].state {
                Mark::Default => '*',
                Mark::Locked => 'L',
                Mark::Error(_) => '!',
                Mark::Normal => ' ',
            };
            let named = seq![' ', sign, ' '] + menu.items[i].label;
            &&& i == menu.cursor ==> stands_in("\x1b[7m"@ + named + "\x1b[0m"@, screen)
            &&& i != menu.cursor ==> stands_in(" "@ + named, screen)
        }),
{
    reveal_strlit("*");
    reveal_strlit("L");
    reveal_strlit("!");
    reveal_strlit(" ");
    let item = menu.items[i];
    let at = i == menu.cursor;
    let sign = match item.state {
        Mark::Default => '*',
        Mark::Locked => 'L',
        Mark::Error(_) => '!',
        Mark::Normal => ' ',
    };
    let named = seq![' ', sign, ' '] + item.label;
    let line = item_line(item, at);
    let part = if at {
        "\x1b[7m"@ + named + "\x1b[0m"@
    } else {
        " "@ + named
    };
    assert(mark_sign(item.state) =~= seq![sign]);
    if at {
        let rest = if item.detail.len() > 0 {
            "\x1b[2m"@ + "  "@ + item.detail + "\x1b[0m"@
        } else {
            Seq::empty()
        } + "\r\n"@;
        lemma_stands_in(" "@, part, rest);
        assert(line =~= " "@ + part + rest);
    } else {
        let rest = item_end(item.detail, at) + "\r\n"@;
        lemma_stands_in(Seq::empty(), part, rest);
        assert(line =~= Seq::<char>::empty() + part + rest);
    }
    let n = menu.items.len() as int;
    lemma_item_stands_in(menu, n, i, part);
    lemma_stands_in_longer(
        part,
        title_bar(breadcrumb) + heading(title),
        item_lines(menu, n),
        hint_bar(hint),
    );
}

/// A row of the tree view is indented by two spaces for each level; the one under the
/// cursor, and no other, is shown reversed.
pub proof fn rows_are_indented(v: ViewState, i: int)
    requires
        0 <= i < v.rows.len(),
        v.rows[i].visible,
    ensures
        ({
            let named = Seq::new((2 * v.rows[i].depth) as nat, |k: int| ' ') + row_sign(v.rows[i])
                + row_name(v.rows[i]);
            &&& i == v.cursor ==> stands_in(
                " "@ + "\x1b[7m"@ + named + "\x1b[0m"@ + "\r\n"@,
                tree_view_screen(v),
            )
            &&& i != v.cursor ==> stands_in(" "@ + named + "\r\n"@, tree_view_screen(v))
        }),
{
    let line = row_line(v.rows[i], i == v.cursor);
    let n = v.rows.len() as int;
    lemma_row_line(v.rows[i], i == v.cursor);
    lemma_stands_in(Seq::empty(), line, Seq::empty());
    assert(Seq::<char>::empty() + line + Seq::<char>::empty() =~= line);
    lemma_row_stands_in(v, n, i, line);
    lemma_stands_in_longer(
        line,
        title_bar(Seq::empty()) + heading("Boot Sources"@),
        row_lines(v, n),
        hint_bar(
            "↑↓ navigate  ←→ fold  Enter select  f full filesystem  r rescan  s shell  q quit"@,
        ),
    );
}

proof fn lemma_row_line(r: Row, is_cursor: bool)
    requires
        r.visible,
    ensures
        ({
            let named = Seq::new((2 * r.depth) as nat, |k: int| ' ') + row_sign(r) + row_name(r);
            row_line(r, is_cursor) == (if is_cursor {
                " "@ + "\x1b[7m"@ + named + "\x1b[0m"@ + "\r\n"@
            } else {
                " "@ + named + "\r\n"@
            })
        }),
{
    let indent = spaces((2 * r.depth) as nat);
    let sign = row_sign(r);
    let name = row_name(r);
    let space = " "@;
    let start = "\x1b[7m"@;
    let stop = "\x1b[0m"@;
    let line = "\r\n"@;
    let none = Seq::<char>::empty();
    assert(indent =~= Seq::new((2 * r.depth) as nat, |k: int| ' '));
    if is_cursor {
        assert(space + start + indent + sign + name + stop + line =~= space + start + (indent + sign
            + name) + stop + line);
    } else {
        assert(space + none + indent + sign + name + none + line =~= space + (indent + sign + name)
            + line);
    }
}

/// Whether a row is seen depends on the rows above it that it belongs to, and on nothing
/// else: it is seen exactly if all of them are open.
pub proof fn rows_are_seen_below_open_rows(rows: Seq<Row>, i: int)
    requires
        0 <= i < rows.len(),
    ensures
        shown(rows).len() == rows.len(),
        shown(rows)[i].kind == rows[i].kind,
        shown(rows)[i].expanded == rows[i].expanded,
        shown(rows)[i].visible <==> forall|j: int|
            0 <= j < i && (forall|k: int| j < k <= i ==> (#[trigger] rows[k]).depth > rows[j].depth)
                ==> (#[trigger] rows[j]).expanded || rows[j].kind is Entry,
{
    if is_shown(rows, i) {
        assert forall|j: int|
            0 <= j < i && (forall|k: int|
                j < k <= i ==> (#[trigger] rows[k]).depth > rows[j].depth) implies (
        #[trigger] rows[j]).expanded || rows[j].kind is Entry by {
            assert(is_above(rows, j, i));
        }
    }
    if forall|j: int|
        0 <= j < i && (forall|k: int| j < k <= i ==> (#[trigger] rows[k]).depth > rows[j].depth)
            ==> (#[trigger] rows[j]).expanded || rows[j].kind is Entry {
        assert forall|j: int| #[trigger] is_above(rows, j, i) implies rows[j].expanded
            || rows[j].kind is Entry by {
            assert(rows[j].expanded || rows[j].kind is Entry);
        }
    }
}

} // verus!
