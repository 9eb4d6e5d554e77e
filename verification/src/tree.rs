//! Boot entries: the files that list them, and the directory tree in which they
//! are found.

use vstd::prelude::*;
use vstd::utf8::encode_utf8;

use crate::json::{
    are_keys, complains, file_json, is_file_of, only_written_files_are_read, parse_records, records,
    records_read_back, tells_file, tells_record, text_rows, texts, Schema, Shape, WrittenFile,
};
use crate::mount::copy_io_error;
use crate::path::{
    bytes_before, bytes_go_before, bytes_order_total, bytes_order_transitive, joined, BootPath,
};
use crate::sort::{
    in_order, pairwise, place_before_sorting, place_in_sorted, sorted,
    sorted_is_ordered_rearrangement, sorted_keeps_length, sorted_keeps_pairwise,
    sorted_keeps_property, stable_sort, views, Ranked,
};
use crate::text::{copy_bytes, lossy_text, utf8_lossy};
use crate::types::{
    node_view, node_views, node_views_index, Entry, EntryView, Error, ErrorView, IoFailure, Leaf,
    LeafView, Source, SourceState, SourceStateView, SourceView, TreeNode, TreeNodeView,
};

verus! {

// --- entries.json ---

/// The fields of an entry, all required.
pub open spec fn entry_schema() -> Schema {
    Schema {
        keys: seq!["name"@, "kernel"@, "initrd"@, "cmdline"@],
        empty: "empty entry object"@,
        unknown: "unknown field: "@,
    }
}

/// The entry that an object stands for.
pub open spec fn entry_of(row: Seq<Seq<char>>) -> EntryView {
    EntryView { name: row[0], kernel: row[1], initrd: row[2], cmdline: row[3] }
}

/// The entries that a file lists, or what is wrong with it.
pub open spec fn entries_of(b: Seq<char>) -> Result<Seq<EntryView>, Seq<char>> {
    match records(b, entry_schema()) {
        Ok(rows) => Ok(rows.map_values(|row: Seq<Seq<char>>| entry_of(row))),
        Err(m) => Err(m),
    }
}

/// The object that stands for an entry.
pub open spec fn entry_row(e: EntryView) -> Seq<Seq<char>> {
    seq![e.name, e.kernel, e.initrd, e.cmdline]
}

proof fn lemma_entry_keys()
    ensures
        are_keys(entry_schema().keys),
{
    reveal_strlit("name");
    reveal_strlit("kernel");
    reveal_strlit("initrd");
    reveal_strlit("cmdline");
    let keys = entry_schema().keys;
    assert("name"@.len() == 4 && "kernel"@.len() == 6 && "initrd"@.len() == 6 && "cmdline"@.len()
        == 7);
    assert("kernel"@[0] != "initrd"@[0]);
}

/// Reading a file gives back the entries that were written to it, however it was
/// written and whatever follows the list.
pub proof fn entries_read_back(entries: Seq<EntryView>, file: WrittenFile, after: Seq<char>)
    requires
        is_file_of(
            file,
            entry_schema().keys,
            entries.map_values(|e: EntryView| entry_row(e)),
        ),
    ensures
        entries_of(file_json(file) + after) == Ok::<Seq<EntryView>, Seq<char>>(entries),
{
    let rows = entries.map_values(|e: EntryView| entry_row(e));
    lemma_entry_keys();
    records_read_back(entry_schema(), file, rows, after);
    assert(rows.map_values(|row: Seq<Seq<char>>| entry_of(row)) =~= entries);
}

/// Only a list of entries is read as one: a text from which entries are read starts with
/// a file that tells them, each with all its fields and no other.
pub proof fn only_listed_entries_are_read(text: Seq<char>, entries: Seq<EntryView>)
    requires
        entries_of(text) == Ok::<Seq<EntryView>, Seq<char>>(entries),
    ensures
        exists|file: WrittenFile|
            #![trigger file_json(file)]
            tells_file(
                file,
                seq!["name"@, "kernel"@, "initrd"@, "cmdline"@],
                entries.map_values(|e: EntryView| seq![e.name, e.kernel, e.initrd, e.cmdline]),
            ) && file_json(file).is_prefix_of(text),
{
    let rows = records(text, entry_schema())->Ok_0;
    only_written_files_are_read(text, entry_schema(), rows);
    let file = choose|file: WrittenFile|
        #![trigger tells_file(file, entry_schema().keys, rows)]
        tells_file(file, entry_schema().keys, rows) && file_json(file).is_prefix_of(text);
    let told = entries.map_values(|e: EntryView| seq![e.name, e.kernel, e.initrd, e.cmdline]);
    assert forall|i: int| 0 <= i < rows.len() implies told[i] == rows[i] by {
        assert(tells_record(file.records[i], entry_schema().keys, rows[i]));
        assert(rows[i].len() == 4);
        assert(told[i] =~= rows[i]);
    }
    assert(told =~= rows);
    assert(tells_file(file, entry_schema().keys, told));
}

fn entry_shape() -> (r: Shape)
    ensures
        r@ == entry_schema(),
        r.keys@.len() == 4,
{
    let r = Shape {
        keys: vec!["name", "kernel", "initrd", "cmdline"],
        empty: "empty entry object",
        unknown: "unknown field: ",
    };
    assert(r@.keys =~= entry_schema().keys);
    r
}

/// Parse entries.json content into a list of boot entries.
pub fn parse_entries(json: &str) -> (r: Result<Vec<Entry>, Error>)
    ensures
        match r {
            Ok(v) => entries_of(json@) == Ok::<Seq<EntryView>, Seq<char>>(views(v@)),
            Err(e) => entries_of(json@) matches Err(m) && complains(e, m),
        },
{
    let shape = entry_shape();
    let rows = match parse_records(json, &shape) {
        Ok(rows) => rows,
        Err(e) => {
            return Err(e);
        },
    };
    let mut entries: Vec<Entry> = Vec::new();
    let ghost wanted = text_rows(rows@).map_values(|row: Seq<Seq<char>>| entry_of(row));
    let mut i: usize = 0;
    while i < rows.len()
        invariant
            i <= rows@.len(),
            entries@.len() == i,
            wanted == text_rows(rows@).map_values(|row: Seq<Seq<char>>| entry_of(row)),
            forall|k: int| 0 <= k < rows@.len() ==> (#[trigger] rows@[k])@.len() == 4,
            forall|k: int| 0 <= k < i ==> (#[trigger] entries@[k])@ == wanted[k],
        decreases rows@.len() - i,
    {
        let row = &rows[i];
        entries.push(
            Entry {
                name: row[0].clone(),
                kernel: row[1].clone(),
                initrd: row[2].clone(),
                cmdline: row[3].clone(),
            },
        );
        assert(wanted[i as int] == entry_of(texts(rows@[i as int]@)));
        i = i + 1;
    }
    assert(views(entries@) =~= wanted);
    Ok(entries)
}

// --- Boot tree walker ---

/// Something found in a directory.
#[derive(Debug)]
pub struct DirItem {
    pub name: Vec<u8>,
    pub content: DirContent,
}

#[derive(Debug)]
pub enum DirContent {
    /// Not a directory.
    File,
    /// A directory with an entries.json, and what reading that file and the
    /// directory's modification time, in seconds, gave.
    Leaf { json: Result<String, IoFailure>, mtime: Result<u64, IoFailure> },
    /// Any other directory, and what listing it gave.
    Dir { listing: Result<Vec<DirItem>, IoFailure> },
}

/// The error that a failure of the operating system becomes.
pub open spec fn io_error(f: IoFailure) -> ErrorView {
    ErrorView::Io(f.code, f.message@)
}

/// What an item of a directory gives to the boot tree.
pub struct FoundView {
    pub name: Seq<u8>,
    pub node: Result<Option<TreeNodeView>, ErrorView>,
}

/// Items are taken in the order of their names, byte by byte.
pub open spec fn name_order() -> spec_fn(FoundView, FoundView) -> bool {
    |a: FoundView, b: FoundView| bytes_before(a.name, b.name)
}

/// The leaf with the given contents.
pub open spec fn leaf_found(
    path: Seq<u8>,
    json: Result<String, IoFailure>,
    mtime: Result<u64, IoFailure>,
) -> Result<Option<TreeNodeView>, ErrorView> {
    match json {
        Err(f) => Err(io_error(f)),
        Ok(text) => match entries_of(text@) {
            Err(m) => Err(ErrorView::Parse(m)),
            Ok(entries) => match mtime {
                Err(f) => Err(io_error(f)),
                Ok(t) => Ok(Some(TreeNodeView::Leaf(LeafView { path, entries, mtime: t }))),
            },
        },
    }
}

/// The nodes that were found, if nothing failed; else the first failure.
pub open spec fn gathered(s: Seq<FoundView>) -> Result<Seq<TreeNodeView>, ErrorView>
    decreases s.len(),
{
    if s.len() == 0 {
        Ok(Seq::empty())
    } else {
        match gathered(s.drop_last()) {
            Err(e) => Err(e),
            Ok(nodes) => match s.last().node {
                Err(e) => Err(e),
                Ok(Some(n)) => Ok(nodes.push(n)),
                Ok(None) => Ok(nodes),
            },
        }
    }
}

/// What an item of the directory `root` gives to the boot tree. A directory
/// below which there is no leaf gives nothing.
pub open spec fn found(root: Seq<u8>, item: DirItem) -> FoundView
    decreases item,
{
    let path = joined(root, item.name@);
    FoundView {
        name: item.name@,
        node: match item.content {
            DirContent::File => Ok(None),
            DirContent::Leaf { json, mtime } => leaf_found(path, json, mtime),
            DirContent::Dir { listing: Err(f) } => Err(io_error(f)),
            DirContent::Dir { listing: Ok(items) } => match gathered(
                sorted(found_all(path, items@), name_order()),
            ) {
                Err(e) => Err(e),
                Ok(children) => if children.len() == 0 {
                    Ok(None)
                } else {
                    Ok(Some(TreeNodeView::Dir { name: utf8_lossy(item.name@), children }))
                },
            },
        },
    }
}

/// What the items of a directory give to the boot tree.
pub open spec fn found_all(root: Seq<u8>, items: Seq<DirItem>) -> Seq<FoundView>
    decreases items,
{
    if items.len() == 0 {
        Seq::empty()
    } else {
        found_all(root, items.drop_last()).push(found(root, items[items.len() - 1]))
    }
}

/// The boot tree below a directory.
pub open spec fn boot_tree(root: Seq<u8>, listing: Result<Vec<DirItem>, IoFailure>) -> Result<
    Seq<TreeNodeView>,
    ErrorView,
> {
    match listing {
        Err(f) => Err(io_error(f)),
        Ok(items) => gathered(sorted(found_all(root, items@), name_order())),
    }
}

/// Whether a result is the given nodes or the given failure.
pub open spec fn is_tree(
    r: Result<Vec<TreeNode>, Error>,
    m: Result<Seq<TreeNodeView>, ErrorView>,
) -> bool {
    match r {
        Ok(v) => m == Ok::<Seq<TreeNodeView>, ErrorView>(node_views(v@)),
        Err(e) => m == Err::<Seq<TreeNodeView>, ErrorView>(e@),
    }
}

struct Found {
    name: Vec<u8>,
    node: Result<Option<TreeNode>, Error>,
}

impl View for Found {
    type V = FoundView;

    closed spec fn view(&self) -> FoundView {
        FoundView {
            name: self.name@,
            node: match self.node {
                Ok(Some(n)) => Ok(Some(node_view(n))),
                Ok(None) => Ok(None),
                Err(e) => Err(e@),
            },
        }
    }
}

impl Ranked for Found {
    closed spec fn order() -> spec_fn(FoundView, FoundView) -> bool {
        name_order()
    }

    fn goes_before(&self, other: &Self) -> (r: bool) {
        bytes_go_before(self.name.as_slice(), other.name.as_slice())
    }
}

fn read_leaf(
    path: BootPath,
    json: &Result<String, IoFailure>,
    mtime: &Result<u64, IoFailure>,
) -> (r: Result<TreeNode, Error>)
    ensures
        match r {
            Ok(n) => leaf_found(path@, *json, *mtime) == Ok::<Option<TreeNodeView>, ErrorView>(
                Some(node_view(n)),
            ),
            Err(e) => leaf_found(path@, *json, *mtime) == Err::<Option<TreeNodeView>, ErrorView>(
                e@,
            ),
        },
{
    let text = match json {
        Ok(text) => text,
        Err(f) => {
            return Err(copy_io_error(f));
        },
    };
    let entries = match parse_entries(text.as_str()) {
        Ok(entries) => entries,
        Err(e) => {
            return Err(e);
        },
    };
    match mtime {
        Ok(t) => Ok(TreeNode::Leaf(Leaf { path, entries, mtime: *t })),
        Err(f) => Err(copy_io_error(f)),
    }
}

fn gather(found: Vec<Found>) -> (r: Result<Vec<TreeNode>, Error>)
    ensures
        is_tree(r, gathered(views(found@))),
{
    let ghost s = views(found@);
    let mut v = found;
    let mut nodes: Vec<TreeNode> = Vec::new();
    let ghost mut done: int = 0;
    assert(s.take(0) =~= Seq::<FoundView>::empty());
    assert(s.skip(0) =~= s);
    while v.len() > 0
        invariant
            0 <= done <= s.len(),
            s == views(found@),
            views(v@) == s.skip(done),
            gathered(s.take(done)) == Ok::<Seq<TreeNodeView>, ErrorView>(node_views(nodes@)),
        decreases v@.len(),
    {
        let ghost was = v@;
        assert(was.len() == views(was).len());
        assert(views(was)[0] == s[done]);
        assert(s.take(done + 1).drop_last() =~= s.take(done));
        assert(s.take(done + 1).last() == s[done]);
        let first = v.remove(0);
        proof {
            lemma_gathered_fails(s, done + 1);
            assert forall|i: int| 0 <= i < v@.len() implies views(v@)[i] == s.skip(done + 1)[i] by {
                assert(v@[i] == was[i + 1]);
                assert(views(was)[i + 1] == s.skip(done)[i + 1]);
            }
            assert(views(v@) =~= s.skip(done + 1));
            done = done + 1;
        }
        match first.node {
            Ok(Some(n)) => {
                let ghost before = nodes@;
                nodes.push(n);
                assert(nodes@.drop_last() =~= before);
            },
            Ok(None) => {},
            Err(e) => {
                return Err(e);
            },
        }
    }
    assert(views(v@).len() == 0);
    assert(s.take(done) =~= s);
    Ok(nodes)
}

proof fn lemma_gathered_fails(s: Seq<FoundView>, n: int)
    requires
        0 <= n <= s.len(),
    ensures
        gathered(s.take(n)) is Err ==> gathered(s) == gathered(s.take(n)),
    decreases s.len(),
{
    if n < s.len() {
        lemma_gathered_fails(s.drop_last(), n);
        assert(s.drop_last().take(n) =~= s.take(n));
    } else {
        assert(s.take(n) =~= s);
    }
}

fn find(root: &BootPath, item: &DirItem) -> (r: Found)
    ensures
        r@ == found(root@, *item),
    decreases item,
{
    let path = root.join(item.name.as_slice());
    let node = match &item.content {
        DirContent::File => Ok(None),
        DirContent::Leaf { json, mtime } => match read_leaf(path, json, mtime) {
            Ok(n) => Ok(Some(n)),
            Err(e) => Err(e),
        },
        DirContent::Dir { listing } => match listing {
            Err(f) => Err(copy_io_error(f)),
            Ok(items) => match gather(stable_sort(find_all(&path, items))) {
                Err(e) => Err(e),
                Ok(children) => {
                    proof {
                        node_views_index(children@);
                    }
                    if children.len() == 0 {
                        Ok(None)
                    } else {
                        Ok(
                            Some(
                                TreeNode::Dir { name: lossy_text(item.name.as_slice()), children },
                            ),
                        )
                    }
                },
            },
        },
    };
    Found { name: copy_bytes(item.name.as_slice()), node }
}

fn find_all(root: &BootPath, items: &Vec<DirItem>) -> (r: Vec<Found>)
    ensures
        views(r@) == found_all(root@, items@),
    decreases items,
{
    let mut out: Vec<Found> = Vec::new();
    let mut i: usize = 0;
    assert(items@.take(0) =~= Seq::<DirItem>::empty());
    assert(views(out@) =~= Seq::<FoundView>::empty());
    while i < items.len()
        invariant
            i <= items@.len(),
            views(out@) == found_all(root@, items@.take(i as int)),
        decreases items@.len() - i,
    {
        let ghost before = out@;
        assert(decreases_to!(items => items@[i as int]));
        let f = find(root, &items[i]);
        out.push(f);
        assert(views(out@) =~= views(before).push(f@));
        assert(items@.take(i + 1).drop_last() =~= items@.take(i as int));
        i = i + 1;
    }
    assert(items@.take(i as int) =~= items@);
    out
}

/// Walk the boot tree below `root`, given what is found there.
///
/// A leaf is a directory containing `entries.json`. Interior nodes are
/// plain directories. Directories that are neither leaves nor contain
/// leaves (directly or transitively) are omitted.
pub fn walk_boot_tree(root: &BootPath, listing: &Result<Vec<DirItem>, IoFailure>) -> (r: Result<
    Vec<TreeNode>,
    Error,
>)
    ensures
        is_tree(r, boot_tree(root@, *listing)),
{
    match listing {
        Ok(items) => gather(stable_sort(find_all(root, items))),
        Err(f) => Err(copy_io_error(f)),
    }
}

/// Whether there is a leaf below every directory of a tree.
pub open spec fn leads_to_leaf(n: TreeNodeView) -> bool
    decreases n,
{
    match n {
        TreeNodeView::Dir { name, children } => children.len() > 0 && forall|i: int|
            0 <= i < children.len() ==> leads_to_leaf(#[trigger] children[i]),
        TreeNodeView::Leaf(leaf) => true,
    }
}

/// Whether what was found, if anything, leads to a leaf.
pub open spec fn found_leads_to_leaf() -> spec_fn(FoundView) -> bool {
    |f: FoundView| f.node matches Ok(Some(n)) ==> leads_to_leaf(n)
}

proof fn lemma_gathered_leads_to_leaf(s: Seq<FoundView>)
    requires
        forall|i: int| 0 <= i < s.len() ==> found_leads_to_leaf()(#[trigger] s[i]),
    ensures
        gathered(s) matches Ok(nodes) ==> forall|i: int|
            0 <= i < nodes.len() ==> leads_to_leaf(#[trigger] nodes[i]),
    decreases s.len(),
{
    if s.len() > 0 {
        lemma_gathered_leads_to_leaf(s.drop_last());
        assert(found_leads_to_leaf()(s[s.len() - 1]));
    }
}

proof fn lemma_found_leads_to_leaf(root: Seq<u8>, item: DirItem)
    ensures
        found_leads_to_leaf()(found(root, item)),
    decreases item,
{
    let path = joined(root, item.name@);
    match item.content {
        DirContent::Dir { listing: Ok(items) } => {
            lemma_found_all_lead_to_leaf(path, items@);
            let all = found_all(path, items@);
            sorted_keeps_property(all, name_order(), found_leads_to_leaf());
            lemma_gathered_leads_to_leaf(sorted(all, name_order()));
        },
        _ => {},
    }
}

proof fn lemma_found_all_lead_to_leaf(root: Seq<u8>, items: Seq<DirItem>)
    ensures
        forall|i: int|
            0 <= i < found_all(root, items).len() ==> found_leads_to_leaf()(
                #[trigger] found_all(root, items)[i],
            ),
    decreases items,
{
    if items.len() > 0 {
        let init = found_all(root, items.drop_last());
        let all = found_all(root, items);
        lemma_found_all_lead_to_leaf(root, items.drop_last());
        lemma_found_leads_to_leaf(root, items[items.len() - 1]);
        assert forall|i: int| 0 <= i < all.len() implies found_leads_to_leaf()(
            #[trigger] all[i],
        ) by {
            if i < init.len() {
                assert(all[i] == init[i]);
            }
        }
    }
}

/// No directory of a boot tree is without a leaf below it.
pub proof fn boot_tree_leads_to_leaves(root: Seq<u8>, listing: Result<Vec<DirItem>, IoFailure>)
    ensures
        boot_tree(root, listing) matches Ok(nodes) ==> forall|i: int|
            0 <= i < nodes.len() ==> leads_to_leaf(#[trigger] nodes[i]),
{
    if let Ok(items) = listing {
        lemma_found_all_lead_to_leaf(root, items@);
        let all = found_all(root, items@);
        sorted_keeps_property(all, name_order(), found_leads_to_leaf());
        lemma_gathered_leads_to_leaf(sorted(all, name_order()));
    }
}

/// The items of a directory are taken in the order of their names, and each is
/// taken once.
pub proof fn items_in_name_order(root: Seq<u8>, items: Seq<DirItem>)
    ensures
        in_order(sorted(found_all(root, items), name_order()), name_order()),
        sorted(found_all(root, items), name_order()).to_multiset() == found_all(
            root,
            items,
        ).to_multiset(),
{
    let before = name_order();
    assert forall|a: FoundView, b: FoundView| #[trigger] before(a, b) implies !before(b, a) by {
        bytes_order_total(a.name, b.name);
    }
    assert forall|a: FoundView, b: FoundView, c: FoundView|
        #![trigger before(a, b), before(b, c)]
        before(a, c) implies before(a, b) || before(b, c) by {
        bytes_order_total(a.name, b.name);
        bytes_order_total(b.name, c.name);
        bytes_order_total(a.name, c.name);
        if !before(a, b) && !before(b, c) {
            if a.name != b.name && b.name != c.name {
                bytes_order_transitive(c.name, b.name, a.name);
            }
        }
    }
    sorted_is_ordered_rearrangement(found_all(root, items), before);
}

/// Whether a node is the one for an item of the directory `root`: for a directory
/// with a list of entries the leaf with that directory's path, its modification
/// time and every entry of the list; for another directory one with its name that
/// holds the boot tree below it, if that is not empty.
pub open spec fn stands_for(root: Seq<u8>, item: DirItem, node: TreeNodeView) -> bool {
    match item.content {
        DirContent::File => false,
        DirContent::Leaf { json, mtime } => json matches Ok(text) && mtime matches Ok(t)
            && entries_of(text@) matches Ok(entries) && node == TreeNodeView::Leaf(
            LeafView { path: joined(root, item.name@), entries, mtime: t },
        ),
        DirContent::Dir { listing } => boot_tree(joined(root, item.name@), listing) matches Ok(
            children,
        ) && children.len() > 0 && node == (TreeNodeView::Dir {
            name: utf8_lossy(item.name@),
            children,
        }),
    }
}

/// Whether everything that belongs to an item of the directory `root` could be read.
pub open spec fn is_readable(root: Seq<u8>, item: DirItem) -> bool {
    match item.content {
        DirContent::File => true,
        DirContent::Leaf { json, mtime } => json matches Ok(text) && entries_of(text@) is Ok
            && mtime is Ok,
        DirContent::Dir { listing } => boot_tree(joined(root, item.name@), listing) is Ok,
    }
}

proof fn lemma_found(root: Seq<u8>, item: DirItem)
    ensures
        found(root, item).name == item.name@,
        found(root, item).node is Ok <==> is_readable(root, item),
        forall|n: TreeNodeView| #[trigger]
            stands_for(root, item, n) <==> found(root, item).node == Ok::<
                Option<TreeNodeView>,
                ErrorView,
            >(Some(n)),
{
}

proof fn lemma_found_all_index(root: Seq<u8>, items: Seq<DirItem>)
    ensures
        found_all(root, items).len() == items.len(),
        forall|i: int|
            0 <= i < items.len() ==> #[trigger] found_all(root, items)[i] == found(root, items[i]),
    decreases items.len(),
{
    if items.len() > 0 {
        lemma_found_all_index(root, items.drop_last());
    }
}

proof fn lemma_gathered(s: Seq<FoundView>)
    ensures
        gathered(s) is Ok <==> forall|i: int| 0 <= i < s.len() ==> (#[trigger] s[i]).node is Ok,
        gathered(s) matches Ok(nodes) ==> nodes.len() <= s.len() && forall|i: int|
            0 <= i < s.len() ==> (#[trigger] s[i].node matches Ok(Some(n)) ==> nodes.contains(n)),
    decreases s.len(),
{
    if s.len() > 0 {
        let init = s.drop_last();
        lemma_gathered(init);
        assert(s[s.len() - 1] == s.last());
        assert forall|i: int| 0 <= i < init.len() implies #[trigger] init[i] == #[trigger] s[i] by {
        }
        if gathered(s) is Ok {
            assert forall|i: int| 0 <= i < s.len() implies (#[trigger] s[i]).node is Ok by {
                if i < init.len() {
                    assert(init[i].node is Ok);
                }
            }
        }
        if let Ok(nodes) = gathered(s) {
            let before = gathered(init)->Ok_0;
            assert forall|i: int, n: TreeNodeView|
                0 <= i < s.len() && #[trigger] s[i].node == Ok::<Option<TreeNodeView>, ErrorView>(
                    Some(n),
                ) implies #[trigger] nodes.contains(n) by {
                if i < init.len() {
                    assert(init[i].node == s[i].node);
                    let k = choose|k: int| 0 <= k < before.len() && before[k] == n;
                    assert(nodes[k] == n);
                } else {
                    assert(nodes[nodes.len() - 1] == n);
                }
            }
        }
    }
}

proof fn lemma_gathered_from(s: Seq<FoundView>, a: int) -> (i: int)
    requires
        gathered(s) is Ok,
        0 <= a < (gathered(s)->Ok_0).len(),
    ensures
        0 <= i < s.len(),
        s[i].node == Ok::<Option<TreeNodeView>, ErrorView>(Some((gathered(s)->Ok_0)[a])),
    decreases s.len(),
{
    let before = gathered(s.drop_last())->Ok_0;
    if a < before.len() {
        lemma_gathered_from(s.drop_last(), a)
    } else {
        s.len() - 1
    }
}

proof fn lemma_gathered_in_order(s: Seq<FoundView>, a: int, b: int) -> (w: (int, int))
    requires
        gathered(s) is Ok,
        0 <= a < b < (gathered(s)->Ok_0).len(),
    ensures
        0 <= w.0 < w.1 < s.len(),
        s[w.0].node == Ok::<Option<TreeNodeView>, ErrorView>(Some((gathered(s)->Ok_0)[a])),
        s[w.1].node == Ok::<Option<TreeNodeView>, ErrorView>(Some((gathered(s)->Ok_0)[b])),
    decreases s.len(),
{
    let before = gathered(s.drop_last())->Ok_0;
    if b < before.len() {
        lemma_gathered_in_order(s.drop_last(), a, b)
    } else {
        (lemma_gathered_from(s.drop_last(), a), s.len() - 1)
    }
}

proof fn lemma_tree_is_read(root: Seq<u8>, items: Seq<DirItem>)
    ensures
        gathered(sorted(found_all(root, items), name_order())) is Ok <==> forall|i: int|
            0 <= i < items.len() ==> #[trigger] is_readable(root, items[i]),
{
    let all = found_all(root, items);
    let s = sorted(all, name_order());
    lemma_found_all_index(root, items);
    lemma_gathered(s);
    if gathered(s) is Ok {
        assert forall|i: int| 0 <= i < items.len() implies #[trigger] is_readable(
            root,
            items[i],
        ) by {
            let k = place_in_sorted(all, name_order(), i);
            assert(s[k].node is Ok);
            lemma_found(root, items[i]);
        }
    }
    if forall|i: int| 0 <= i < items.len() ==> #[trigger] is_readable(root, items[i]) {
        assert forall|k: int| 0 <= k < s.len() implies (#[trigger] s[k]).node is Ok by {
            let i = place_before_sorting(all, name_order(), k);
            assert(is_readable(root, items[i]));
            lemma_found(root, items[i]);
        }
    }
}

/// A boot tree is read exactly if everything in its directory is; then each item
/// has its node, and there is no other node.
pub proof fn tree_holds_what_is_there(root: Seq<u8>, items: Vec<DirItem>, node: TreeNodeView)
    ensures
        boot_tree(root, Ok(items)) is Ok <==> forall|i: int|
            0 <= i < items@.len() ==> #[trigger] is_readable(root, items@[i]),
        boot_tree(root, Ok(items)) matches Ok(nodes) ==> nodes.len() <= items@.len() && (
        nodes.contains(node) <==> exists|i: int|
            0 <= i < items@.len() && #[trigger] stands_for(root, items@[i], node)),
{
    let all = found_all(root, items@);
    let s = sorted(all, name_order());
    lemma_tree_is_read(root, items@);
    lemma_found_all_index(root, items@);
    lemma_gathered(s);
    sorted_keeps_length(all, name_order());
    if let Ok(nodes) = gathered(s) {
        if nodes.contains(node) {
            let a = choose|a: int| 0 <= a < nodes.len() && nodes[a] == node;
            let k = lemma_gathered_from(s, a);
            let i = place_before_sorting(all, name_order(), k);
            lemma_found(root, items@[i]);
            assert(stands_for(root, items@[i], node));
        }
        if exists|i: int| 0 <= i < items@.len() && #[trigger] stands_for(root, items@[i], node) {
            let i = choose|i: int|
                0 <= i < items@.len() && #[trigger] stands_for(root, items@[i], node);
            lemma_found(root, items@[i]);
            let k = place_in_sorted(all, name_order(), i);
            assert(s[k].node matches Ok(Some(n)) && n == node);
        }
    }
}

/// A leaf holds all that its file lists, in the order of the file: where a directory
/// of the boot tree has a list of entries, its leaf has the directory's path, its
/// modification time and exactly those entries.
pub proof fn leaf_holds_what_its_file_lists(
    root: Seq<u8>,
    items: Vec<DirItem>,
    i: int,
    text: String,
    mtime: u64,
    entries: Seq<EntryView>,
    nodes: Seq<TreeNodeView>,
)
    requires
        boot_tree(root, Ok(items)) == Ok::<Seq<TreeNodeView>, ErrorView>(nodes),
        0 <= i < items@.len(),
        items@[i].content == (DirContent::Leaf { json: Ok(text), mtime: Ok(mtime) }),
        entries_of(text@) == Ok::<Seq<EntryView>, Seq<char>>(entries),
    ensures
        nodes.contains(
            TreeNodeView::Leaf(LeafView { path: joined(root, items@[i].name@), entries, mtime }),
        ),
{
    let node = TreeNodeView::Leaf(
        LeafView { path: joined(root, items@[i].name@), entries, mtime },
    );
    assert(stands_for(root, items@[i], node));
    tree_holds_what_is_there(root, items, node);
}

/// The entries written to the file of a directory are those of its leaf in the boot
/// tree, however the file was written.
pub proof fn written_entries_are_walked_to(
    root: Seq<u8>,
    items: Vec<DirItem>,
    i: int,
    text: String,
    mtime: u64,
    entries: Seq<EntryView>,
    file: WrittenFile,
    after: Seq<char>,
)
    requires
        0 <= i < items@.len(),
        items@[i].content == (DirContent::Leaf { json: Ok(text), mtime: Ok(mtime) }),
        text@ == file_json(file) + after,
        is_file_of(
            file,
            entry_schema().keys,
            entries.map_values(|e: EntryView| entry_row(e)),
        ),
        forall|j: int| 0 <= j < items@.len() ==> #[trigger] is_readable(root, items@[j]),
    ensures
        boot_tree(root, Ok(items)) matches Ok(nodes) && nodes.contains(
            TreeNodeView::Leaf(LeafView { path: joined(root, items@[i].name@), entries, mtime }),
        ),
{
    entries_read_back(entries, file, after);
    let node = TreeNodeView::Leaf(
        LeafView { path: joined(root, items@[i].name@), entries, mtime },
    );
    tree_holds_what_is_there(root, items, node);
    leaf_holds_what_its_file_lists(
        root,
        items,
        i,
        text,
        mtime,
        entries,
        boot_tree(root, Ok(items))->Ok_0,
    );
}

/// The nodes of a boot tree stand in the order of the names of their items.
pub proof fn nodes_in_name_order(
    root: Seq<u8>,
    items: Vec<DirItem>,
    nodes: Seq<TreeNodeView>,
    a: int,
    b: int,
)
    requires
        boot_tree(root, Ok(items)) == Ok::<Seq<TreeNodeView>, ErrorView>(nodes),
        forall|i: int, j: int|
            0 <= i < items@.len() && 0 <= j < items@.len() && i != j ==> (
            #[trigger] items@[i]).name@ != (#[trigger] items@[j]).name@,
        0 <= a < b < nodes.len(),
    ensures
        exists|i: int, j: int|
            0 <= i < items@.len() && 0 <= j < items@.len() && #[trigger] stands_for(
                root,
                items@[i],
                nodes[a],
            ) && #[trigger] stands_for(root, items@[j], nodes[b]) && bytes_before(
                items@[i].name@,
                items@[j].name@,
            ),
{
    let all = found_all(root, items@);
    let s = sorted(all, name_order());
    lemma_found_all_index(root, items@);
    items_in_name_order(root, items@);
    let (x, y) = lemma_gathered_in_order(s, a, b);
    let p = |f: FoundView, g: FoundView| f.name != g.name;
    assert(pairwise(all, p)) by {
        assert forall|i: int, j: int|
            0 <= i < all.len() && 0 <= j < all.len() && i != j implies p(
            #[trigger] all[i],
            #[trigger] all[j],
        ) by {
            assert(items@[i].name@ != items@[j].name@);
            lemma_found(root, items@[i]);
            lemma_found(root, items@[j]);
        }
    }
    sorted_keeps_pairwise(all, name_order(), p);
    assert(p(s[x], s[y]));
    assert(!name_order()(s[y], s[x]));
    bytes_order_total(s[x].name, s[y].name);
    let i = place_before_sorting(all, name_order(), x);
    let j = place_before_sorting(all, name_order(), y);
    lemma_found(root, items@[i]);
    lemma_found(root, items@[j]);
    assert(all[i] == found(root, items@[i]) && all[j] == found(root, items@[j]));
    assert(stands_for(root, items@[i], nodes[a]));
    assert(stands_for(root, items@[j], nodes[b]));
}

// --- Static build-time entries ---
//
// Kept in the initramfs at build time. Each entry becomes a source with a tree
// of a single leaf.

pub const STATIC_ENTRIES_PATH: &'static str = "/etc/kexec-menu/static.json";

/// A static entry as the configuration file gives it.
#[derive(Debug)]
pub struct StaticConfig {
    pub name: String,
    pub dir: String,
    pub kernel: String,
    pub initrd: String,
    pub cmdline: String,
}

/// The model of a static entry.
pub struct StaticView {
    pub name: Seq<char>,
    pub dir: Seq<char>,
    pub kernel: Seq<char>,
    pub initrd: Seq<char>,
    pub cmdline: Seq<char>,
}

impl View for StaticConfig {
    type V = StaticView;

    open spec fn view(&self) -> StaticView {
        StaticView {
            name: self.name@,
            dir: self.dir@,
            kernel: self.kernel@,
            initrd: self.initrd@,
            cmdline: self.cmdline@,
        }
    }
}

/// The fields of a static entry, all required.
pub open spec fn static_schema() -> Schema {
    Schema {
        keys: seq!["name"@, "dir"@, "kernel"@, "initrd"@, "cmdline"@],
        empty: "empty static entry object"@,
        unknown: "unknown field in static entry: "@,
    }
}

/// The static entry that an object stands for.
pub open spec fn static_of(row: Seq<Seq<char>>) -> StaticView {
    StaticView { name: row[0], dir: row[1], kernel: row[2], initrd: row[3], cmdline: row[4] }
}

/// The static entries that a file lists, or what is wrong with it.
pub open spec fn statics_of(b: Seq<char>) -> Result<Seq<StaticView>, Seq<char>> {
    match records(b, static_schema()) {
        Ok(rows) => Ok(rows.map_values(|row: Seq<Seq<char>>| static_of(row))),
        Err(m) => Err(m),
    }
}

/// The object that stands for a static entry.
pub open spec fn static_row(c: StaticView) -> Seq<Seq<char>> {
    seq![c.name, c.dir, c.kernel, c.initrd, c.cmdline]
}

proof fn lemma_static_keys()
    ensures
        are_keys(static_schema().keys),
{
    reveal_strlit("name");
    reveal_strlit("dir");
    reveal_strlit("kernel");
    reveal_strlit("initrd");
    reveal_strlit("cmdline");
    let keys = static_schema().keys;
    assert("name"@.len() == 4 && "dir"@.len() == 3 && "kernel"@.len() == 6 && "initrd"@.len() == 6
        && "cmdline"@.len() == 7);
    assert("kernel"@[0] != "initrd"@[0]);
}

/// Reading a file gives back the static entries that were written to it, however it
/// was written and whatever follows the list.
pub proof fn statics_read_back(configs: Seq<StaticView>, file: WrittenFile, after: Seq<char>)
    requires
        is_file_of(
            file,
            static_schema().keys,
            configs.map_values(|c: StaticView| static_row(c)),
        ),
    ensures
        statics_of(file_json(file) + after) == Ok::<Seq<StaticView>, Seq<char>>(configs),
{
    let rows = configs.map_values(|c: StaticView| static_row(c));
    lemma_static_keys();
    records_read_back(static_schema(), file, rows, after);
    assert(rows.map_values(|row: Seq<Seq<char>>| static_of(row)) =~= configs);
}

/// Only a list of static entries is read as one: a text from which they are read starts
/// with a file that tells them, each with all its fields and no other.
pub proof fn only_listed_statics_are_read(text: Seq<char>, configs: Seq<StaticView>)
    requires
        statics_of(text) == Ok::<Seq<StaticView>, Seq<char>>(configs),
    ensures
        exists|file: WrittenFile|
            #![trigger file_json(file)]
            tells_file(
                file,
                seq!["name"@, "dir"@, "kernel"@, "initrd"@, "cmdline"@],
                configs.map_values(
                    |c: StaticView| seq![c.name, c.dir, c.kernel, c.initrd, c.cmdline],
                ),
            ) && file_json(file).is_prefix_of(text),
{
    let rows = records(text, static_schema())->Ok_0;
    only_written_files_are_read(text, static_schema(), rows);
    let file = choose|file: WrittenFile|
        #![trigger tells_file(file, static_schema().keys, rows)]
        tells_file(file, static_schema().keys, rows) && file_json(file).is_prefix_of(text);
    let told = configs.map_values(
        |c: StaticView| seq![c.name, c.dir, c.kernel, c.initrd, c.cmdline],
    );
    assert forall|i: int| 0 <= i < rows.len() implies told[i] == rows[i] by {
        assert(tells_record(file.records[i], static_schema().keys, rows[i]));
        assert(rows[i].len() == 5);
        assert(told[i] =~= rows[i]);
    }
    assert(told =~= rows);
    assert(tells_file(file, static_schema().keys, told));
}

fn static_shape() -> (r: Shape)
    ensures
        r@ == static_schema(),
        r.keys@.len() == 5,
{
    let r = Shape {
        keys: vec!["name", "dir", "kernel", "initrd", "cmdline"],
        empty: "empty static entry object",
        unknown: "unknown field in static entry: ",
    };
    assert(r@.keys =~= static_schema().keys);
    r
}

/// Parse the configuration of the static entries.
pub fn parse_static_config(json: &str) -> (r: Result<Vec<StaticConfig>, Error>)
    ensures
        match r {
            Ok(v) => statics_of(json@) == Ok::<Seq<StaticView>, Seq<char>>(views(v@)),
            Err(e) => statics_of(json@) matches Err(m) && complains(e, m),
        },
{
    let shape = static_shape();
    let rows = match parse_records(json, &shape) {
        Ok(rows) => rows,
        Err(e) => {
            return Err(e);
        },
    };
    let mut configs: Vec<StaticConfig> = Vec::new();
    let ghost wanted = text_rows(rows@).map_values(|row: Seq<Seq<char>>| static_of(row));
    let mut i: usize = 0;
    while i < rows.len()
        invariant
            i <= rows@.len(),
            configs@.len() == i,
            wanted == text_rows(rows@).map_values(|row: Seq<Seq<char>>| static_of(row)),
            forall|k: int| 0 <= k < rows@.len() ==> (#[trigger] rows@[k])@.len() == 5,
            forall|k: int| 0 <= k < i ==> (#[trigger] configs@[k])@ == wanted[k],
        decreases rows@.len() - i,
    {
        let row = &rows[i];
        configs.push(
            StaticConfig {
                name: row[0].clone(),
                dir: row[1].clone(),
                kernel: row[2].clone(),
                initrd: row[3].clone(),
                cmdline: row[4].clone(),
            },
        );
        assert(wanted[i as int] == static_of(texts(rows@[i as int]@)));
        i = i + 1;
    }
    assert(views(configs@) =~= wanted);
    Ok(configs)
}

/// A static entry as it appears in the menu: a source, its label, and its tree.
pub struct StaticSource {
    pub source: SourceView,
    pub label: Seq<char>,
    pub tree: Seq<TreeNodeView>,
}

/// What a static entry becomes.
pub open spec fn static_source(c: StaticView) -> StaticSource {
    StaticSource {
        source: SourceView {
            label: c.name,
            device: encode_utf8(c.dir),
            state: SourceStateView::Static,
            mount_point: None,
            passphrase: None,
        },
        label: c.name,
        tree: seq![
            TreeNodeView::Leaf(
                LeafView {
                    path: encode_utf8(c.dir),
                    entries: seq![
                        EntryView {
                            name: c.name,
                            kernel: c.kernel,
                            initrd: c.initrd,
                            cmdline: c.cmdline,
                        },
                    ],
                    mtime: 0,
                },
            ),
        ],
    }
}

/// The static entries of a configuration file, which may be missing.
pub open spec fn static_sources(file: Result<Option<String>, IoFailure>) -> Result<
    Seq<StaticSource>,
    ErrorView,
> {
    match file {
        Err(f) => Err(io_error(f)),
        Ok(None) => Ok(Seq::empty()),
        Ok(Some(json)) => match statics_of(json@) {
            Ok(configs) => Ok(configs.map_values(|c: StaticView| static_source(c))),
            Err(m) => Err(ErrorView::Parse(m)),
        },
    }
}

/// Every static entry that was written to the configuration file becomes a source that
/// is open, with a tree of one leaf that holds that one entry; a missing file gives
/// none, and one that cannot be read an error.
pub proof fn static_entries_become_sources(
    json: String,
    configs: Seq<StaticView>,
    file: WrittenFile,
    after: Seq<char>,
    i: int,
)
    requires
        is_file_of(
            file,
            static_schema().keys,
            configs.map_values(|c: StaticView| static_row(c)),
        ),
        json@ == file_json(file) + after,
        0 <= i < configs.len(),
    ensures
        static_sources(Ok(Some(json))) matches Ok(sources) && {
            &&& sources.len() == configs.len()
            &&& sources[i].label == configs[i].name
            &&& sources[i].source.label == configs[i].name
            &&& sources[i].source.device == encode_utf8(configs[i].dir)
            &&& sources[i].source.state is Static
            &&& sources[i].source.mount_point is None
            &&& sources[i].source.passphrase is None
            &&& sources[i].tree.len() == 1
            &&& sources[i].tree[0] matches TreeNodeView::Leaf(leaf) && leaf.path == encode_utf8(
                configs[i].dir,
            ) && leaf.entries.len() == 1 && leaf.entries[0].name == configs[i].name
                && leaf.entries[0].kernel == configs[i].kernel && leaf.entries[0].initrd
                == configs[i].initrd && leaf.entries[0].cmdline == configs[i].cmdline && leaf.mtime
                == 0
        },
        static_sources(Ok(None)) == Ok::<Seq<StaticSource>, ErrorView>(Seq::empty()),
        forall|f: IoFailure| (#[trigger] static_sources(Err(f))) is Err,
{
    statics_read_back(configs, file, after);
}

/// The model of a loaded static entry.
pub open spec fn static_source_view(t: (Source, String, Vec<TreeNode>)) -> StaticSource {
    StaticSource { source: t.0@, label: t.1@, tree: node_views(t.2@) }
}

/// Load static entries, given what reading their configuration file gave. There
/// are none if there is no such file.
pub fn load_static_entries(file: &Result<Option<String>, IoFailure>) -> (r: Result<
    Vec<(Source, String, Vec<TreeNode>)>,
    Error,
>)
    ensures
        match r {
            Ok(v) => static_sources(*file) == Ok::<Seq<StaticSource>, ErrorView>(
                v@.map_values(|t: (Source, String, Vec<TreeNode>)| static_source_view(t)),
            ),
            Err(e) => static_sources(*file) == Err::<Seq<StaticSource>, ErrorView>(e@),
        },
{
    let mut out: Vec<(Source, String, Vec<TreeNode>)> = Vec::new();
    let json = match file {
        Ok(Some(json)) => json,
        Ok(None) => {
            assert(out@.map_values(
                |t: (Source, String, Vec<TreeNode>)| static_source_view(t),
            ) =~= Seq::<StaticSource>::empty());
            return Ok(out);
        },
        Err(f) => {
            return Err(copy_io_error(f));
        },
    };
    let configs = match parse_static_config(json.as_str()) {
        Ok(configs) => configs,
        Err(e) => {
            return Err(e);
        },
    };
    let mut i: usize = 0;
    while i < configs.len()
        invariant
            i <= configs@.len(),
            out@.len() == i,
            forall|k: int|
                0 <= k < i ==> static_source_view(#[trigger] out@[k]) == static_source(
                    configs@[k]@,
                ),
        decreases configs@.len() - i,
    {
        let c = &configs[i];
        let dir = BootPath::from_text(c.dir.as_str());
        let entry = Entry {
            name: c.name.clone(),
            kernel: c.kernel.clone(),
            initrd: c.initrd.clone(),
            cmdline: c.cmdline.clone(),
        };
        let leaf = Leaf { path: dir.clone(), entries: vec![entry], mtime: 0 };
        let tree = vec![TreeNode::Leaf(leaf)];
        let source = Source {
            label: c.name.clone(),
            device: dir,
            state: SourceState::Static,
            mount_point: None,
            passphrase: None,
        };
        proof {
            node_views_index(tree@);
            assert(leaf@.entries =~= seq![entry@]);
            assert(node_views(tree@) =~= static_source(c@).tree);
        }
        out.push((source, c.name.clone(), tree));
        i = i + 1;
    }
    assert(out@.map_values(|t: (Source, String, Vec<TreeNode>)| static_source_view(t)) =~= views(
        configs@,
    ).map_values(|c: StaticView| static_source(c)));
    Ok(out)
}

} // verus!
