//! The unified tree view: one navigable tree of all sources and boot entries.

use vstd::prelude::*;

use crate::path::{same_path, short_name, BootPath};
use crate::select::{leaves, node_leaves};
use crate::sort::views;
use crate::types::{
    node_view, node_views, node_views_step, opt_selection_ref, source_views, tree_views,
    BootSelection, Entry, EntryView, LeafView, SelectionView, Source, SourceState, SourceStateView,
    SourceView, TreeNode, TreeNodeView,
};

verus! {

/// A node in the unified tree view.
#[derive(Debug)]
pub struct TreeViewNode {
    pub depth: usize,
    pub kind: NodeKind,
    pub expanded: bool,
    pub visible: bool,
    pub is_default: bool,
}

/// The kind of a tree view node.
#[derive(Debug)]
pub enum NodeKind {
    Source { idx: usize, label: String, state: NodeSourceState },
    Dir { name: String },
    Leaf { name: String, path: BootPath, entry_count: usize },
    Entry { entry: Entry, source_idx: usize },
}

/// The state of a source as the tree view shows it.
#[derive(Debug, PartialEq, Eq)]
pub enum NodeSourceState {
    Mounted,
    Encrypted,
    Error(String),
    Static,
    Empty,
}

/// The model of a source's state in the tree view.
pub enum ShownState {
    Mounted,
    Encrypted,
    Error(Seq<char>),
    Static,
    Empty,
}

/// The model of the kind of a node.
pub enum RowKind {
    Source { idx: int, label: Seq<char>, state: ShownState },
    Dir { name: Seq<char> },
    Leaf { name: Seq<char>, path: Seq<u8>, entry_count: int },
    Entry { entry: EntryView, source_idx: int },
}

/// The model of a node.
pub struct Row {
    pub depth: int,
    pub kind: RowKind,
    pub expanded: bool,
    pub visible: bool,
    pub is_default: bool,
}

impl View for NodeSourceState {
    type V = ShownState;

    open spec fn view(&self) -> ShownState {
        match self {
            NodeSourceState::Mounted => ShownState::Mounted,
            NodeSourceState::Encrypted => ShownState::Encrypted,
            NodeSourceState::Error(e) => ShownState::Error(e@),
            NodeSourceState::Static => ShownState::Static,
            NodeSourceState::Empty => ShownState::Empty,
        }
    }
}

impl View for NodeKind {
    type V = RowKind;

    open spec fn view(&self) -> RowKind {
        match self {
            NodeKind::Source { idx, label, state } => RowKind::Source {
                idx: *idx as int,
                label: label@,
                state: state@,
            },
            NodeKind::Dir { name } => RowKind::Dir { name: name@ },
            NodeKind::Leaf { name, path, entry_count } => RowKind::Leaf {
                name: name@,
                path: path@,
                entry_count: *entry_count as int,
            },
            NodeKind::Entry { entry, source_idx } => RowKind::Entry {
                entry: entry@,
                source_idx: *source_idx as int,
            },
        }
    }
}

impl View for TreeViewNode {
    type V = Row;

    open spec fn view(&self) -> Row {
        Row {
            depth: self.depth as int,
            kind: self.kind@,
            expanded: self.expanded,
            visible: self.visible,
            is_default: self.is_default,
        }
    }
}

/// The unified tree view.
#[derive(Debug)]
pub struct TreeView {
    pub nodes: Vec<TreeViewNode>,
    pub cursor: usize,
}

// --- Visibility ---

/// Whether a node hides what is below it.
pub open spec fn is_collapsed(r: Row) -> bool {
    !r.expanded && !(r.kind is Entry)
}

/// Whether row `j` is an ancestor of row `i`: every row from behind `j` up to
/// `i` is deeper.
pub open spec fn is_above(rows: Seq<Row>, j: int, i: int) -> bool {
    &&& 0 <= j < i < rows.len()
    &&& forall|k: int| j < k <= i ==> (#[trigger] rows[k]).depth > rows[j].depth
}

/// Whether no ancestor of a row is collapsed.
pub open spec fn is_shown(rows: Seq<Row>, i: int) -> bool {
    forall|j: int| #[trigger] is_above(rows, j, i) ==> !is_collapsed(rows[j])
}

/// The rows, each visible if and only if none of its ancestors is collapsed.
pub open spec fn shown(rows: Seq<Row>) -> Seq<Row> {
    Seq::new(rows.len(), |i: int| Row { visible: is_shown(rows, i), ..rows[i] })
}

/// Whether the rows are visible as they should be.
pub open spec fn is_consistent(rows: Seq<Row>) -> bool {
    forall|i: int| 0 <= i < rows.len() ==> (#[trigger] rows[i]).visible == is_shown(rows, i)
}

/// Whether two views differ in nothing but what is visible.
pub open spec fn same_but_visibility(a: Seq<Row>, b: Seq<Row>) -> bool {
    &&& a.len() == b.len()
    &&& forall|i: int|
        #![trigger a[i]]
        #![trigger b[i]]
        0 <= i < a.len() ==> a[i] == (Row { visible: a[i].visible, ..b[i] })
}

proof fn lemma_shown_alike(a: Seq<Row>, b: Seq<Row>, i: int)
    requires
        same_but_visibility(a, b),
        0 <= i < a.len(),
    ensures
        is_shown(a, i) == is_shown(b, i),
{
    assert forall|j: int| is_above(a, j, i) == is_above(b, j, i) by {
        if is_above(a, j, i) {
            assert forall|k: int| j < k <= i implies (#[trigger] b[k]).depth > b[j].depth by {
                assert(a[k].depth > a[j].depth);
            }
        }
        if is_above(b, j, i) {
            assert forall|k: int| j < k <= i implies (#[trigger] a[k]).depth > a[j].depth by {
                assert(b[k].depth > b[j].depth);
            }
        }
    }
    if is_shown(a, i) {
        assert forall|j: int| #[trigger] is_above(b, j, i) implies !is_collapsed(b[j]) by {
            assert(is_above(a, j, i));
            assert(!is_collapsed(a[j]));
        }
    }
    if is_shown(b, i) {
        assert forall|j: int| #[trigger] is_above(a, j, i) implies !is_collapsed(a[j]) by {
            assert(is_above(b, j, i));
            assert(!is_collapsed(b[j]));
        }
    }
}

/// Recomputing what is visible leaves the view consistent, and a consistent view
/// as it is.
pub proof fn shown_is_consistent(rows: Seq<Row>)
    ensures
        is_consistent(shown(rows)),
        is_consistent(rows) ==> shown(rows) == rows,
        rows.len() > 0 ==> shown(rows)[0].visible,
{
    let s = shown(rows);
    assert(same_but_visibility(s, rows));
    assert forall|i: int| 0 <= i < s.len() implies (#[trigger] s[i]).visible == is_shown(s, i) by {
        lemma_shown_alike(s, rows, i);
    }
    if is_consistent(rows) {
        assert forall|i: int| 0 <= i < rows.len() implies s[i] == rows[i] by {
            assert(rows[i].visible == is_shown(rows, i));
        }
        assert(s =~= rows);
    }
}

/// Whether row `j` is collapsed and everything between it and `i` is below it.
spec fn covers(rows: Seq<Row>, j: int, i: int) -> bool {
    &&& 0 <= j < i <= rows.len()
    &&& is_collapsed(rows[j])
    &&& forall|k: int| j < k < i ==> (#[trigger] rows[k]).depth > rows[j].depth
}

proof fn lemma_covers_step(rows: Seq<Row>, j: int, i: int)
    requires
        0 <= i < rows.len(),
    ensures
        covers(rows, j, i + 1) <==> (j == i && is_collapsed(rows[i])) || (covers(rows, j, i)
            && rows[i].depth > rows[j].depth),
        covers(rows, j, i + 1) && j < i ==> is_above(rows, j, i),
        is_above(rows, j, i) && is_collapsed(rows[j]) ==> covers(rows, j, i + 1),
{
}

/// At a row that a visible collapsed row covers up to there: the row is hidden if
/// it is deeper; else nothing hides it.
proof fn lemma_under_cover(rows: Seq<Row>, h: int, i: int)
    requires
        0 <= i < rows.len(),
        covers(rows, h, i),
        is_shown(rows, h),
    ensures
        rows[i].depth > rows[h].depth ==> covers(rows, h, i + 1) && !is_shown(rows, i),
        rows[i].depth <= rows[h].depth ==> is_shown(rows, i) && forall|j: int|
            j != i ==> !#[trigger] covers(rows, j, i + 1),
{
    if rows[i].depth > rows[h].depth {
        lemma_covers_step(rows, h, i);
        assert(is_above(rows, h, i));
    } else {
        assert forall|j: int| j != i implies !#[trigger] covers(rows, j, i + 1) by {
            if covers(rows, j, i + 1) {
                assert(rows[i].depth > rows[j].depth);
                if j < h {
                    assert(is_above(rows, j, h));
                } else if j > h {
                    assert(rows[j].depth > rows[h].depth);
                }
            }
        }
        assert forall|j: int| #[trigger] is_above(rows, j, i) implies !is_collapsed(rows[j]) by {
            lemma_covers_step(rows, j, i);
        }
    }
}

/// At a row that nothing covers up to there.
proof fn lemma_in_the_open(rows: Seq<Row>, i: int)
    requires
        0 <= i < rows.len(),
        forall|j: int| !#[trigger] covers(rows, j, i),
    ensures
        is_shown(rows, i),
        forall|j: int| j != i ==> !#[trigger] covers(rows, j, i + 1),
{
    assert forall|j: int| #[trigger] is_above(rows, j, i) implies !is_collapsed(rows[j]) by {
        lemma_covers_step(rows, j, i);
        assert(!covers(rows, j, i));
    }
    assert forall|j: int| j != i implies !#[trigger] covers(rows, j, i + 1) by {
        lemma_covers_step(rows, j, i);
        assert(!covers(rows, j, i));
    }
}

// --- Moving and opening ---

/// The first visible row at or behind `from`.
pub open spec fn next_visible(rows: Seq<Row>, from: int) -> Option<int>
    decreases rows.len() - from,
{
    if from < 0 || from >= rows.len() {
        None
    } else if rows[from].visible {
        Some(from)
    } else {
        next_visible(rows, from + 1)
    }
}

/// The last row before `end` that is visible and less deep than `depth`.
pub open spec fn visible_before(rows: Seq<Row>, end: int, depth: Option<int>) -> Option<int>
    decreases end,
{
    if end <= 0 {
        None
    } else if rows[end - 1].visible && (depth matches Some(d) ==> rows[end - 1].depth < d) {
        Some(end - 1)
    } else {
        visible_before(rows, end - 1, depth)
    }
}

/// Whether a node can be opened and closed.
pub open spec fn can_toggle(r: Row) -> bool {
    match r.kind {
        RowKind::Entry { .. } => false,
        RowKind::Source { state, .. } => state is Mounted || state is Static,
        _ => true,
    }
}

/// The rows after the one at `at` was opened or closed.
pub open spec fn toggled(rows: Seq<Row>, at: int) -> Seq<Row> {
    shown(rows.update(at, Row { expanded: !rows[at].expanded, ..rows[at] }))
}

/// The cursor on a visible row: where it is if that row is visible, else on the
/// visible row before it, else on the first row.
pub open spec fn settled(rows: Seq<Row>, cursor: int) -> int {
    if 0 <= cursor < rows.len() && rows[cursor].visible {
        cursor
    } else {
        match visible_before(rows, cursor, None) {
            Some(i) => i,
            None => 0,
        }
    }
}

/// The view after an operation: its rows and its cursor.
pub struct ViewState {
    pub rows: Seq<Row>,
    pub cursor: int,
}

impl ViewState {
    /// Opens or closes the node at the cursor, where that can be done.
    pub open spec fn toggle(self) -> Option<ViewState> {
        if 0 <= self.cursor < self.rows.len() && can_toggle(self.rows[self.cursor]) {
            let rows = toggled(self.rows, self.cursor);
            Some(ViewState { rows, cursor: settled(rows, self.cursor) })
        } else {
            None
        }
    }

    /// Opens the node at the cursor, where it is closed.
    pub open spec fn expand(self) -> Option<ViewState> {
        if 0 <= self.cursor < self.rows.len() && self.rows[self.cursor].expanded {
            None
        } else {
            self.toggle()
        }
    }

    /// Closes the node at the cursor, where it is open; else moves to the last
    /// visible row before it that is less deep.
    pub open spec fn collapse(self) -> Option<ViewState> {
        if !(0 <= self.cursor < self.rows.len()) {
            None
        } else {
            let row = self.rows[self.cursor];
            if !(row.kind is Entry) && row.expanded {
                self.toggle()
            } else {
                match visible_before(self.rows, self.cursor, Some(row.depth)) {
                    Some(i) => Some(ViewState { cursor: i, ..self }),
                    None => None,
                }
            }
        }
    }

    /// Moves to the next visible row, if there is one.
    pub open spec fn down(self) -> ViewState {
        match next_visible(self.rows, self.cursor + 1) {
            Some(i) => ViewState { cursor: i, ..self },
            None => self,
        }
    }

    /// Moves to the previous visible row, if there is one.
    pub open spec fn up(self) -> ViewState {
        match visible_before(self.rows, self.cursor, None) {
            Some(i) => ViewState { cursor: i, ..self },
            None => self,
        }
    }

    /// Whether the view is as it should be: the rows are visible as their
    /// ancestors say, and the cursor is on a visible row, if there is any row.
    pub open spec fn is_sound(self) -> bool {
        &&& is_consistent(self.rows)
        &&& self.rows.len() == 0 ==> self.cursor == 0
        &&& self.rows.len() > 0 ==> 0 <= self.cursor < self.rows.len()
            && self.rows[self.cursor].visible
    }
}

/// The index of the source that the row at `at` belongs to: that of the last
/// source row up to it.
pub open spec fn source_at(rows: Seq<Row>, at: int) -> Option<int>
    decreases at + 1,
{
    if at < 0 || at >= rows.len() {
        None
    } else {
        match rows[at].kind {
            RowKind::Source { idx, .. } => Some(idx),
            _ => source_at(rows, at - 1),
        }
    }
}

/// An optional number as an integer.
pub open spec fn opt_int(n: Option<usize>) -> Option<int> {
    match n {
        Some(x) => Some(x as int),
        None => None,
    }
}

/// What an operation that may be refused leaves behind.
pub open spec fn or_same(next: Option<ViewState>, now: ViewState) -> ViewState {
    match next {
        Some(v) => v,
        None => now,
    }
}

proof fn lemma_next_visible(rows: Seq<Row>, from: int)
    requires
        0 <= from,
    ensures
        next_visible(rows, from) matches Some(i) ==> from <= i < rows.len() && rows[i].visible
            && forall|k: int| from <= k < i ==> !(#[trigger] rows[k]).visible,
        next_visible(rows, from) is None ==> forall|k: int|
            from <= k < rows.len() ==> !(#[trigger] rows[k]).visible,
    decreases rows.len() - from,
{
    if from < rows.len() && !rows[from].visible {
        lemma_next_visible(rows, from + 1);
    }
}

proof fn lemma_visible_before(rows: Seq<Row>, end: int, depth: Option<int>)
    requires
        end <= rows.len(),
    ensures
        visible_before(rows, end, depth) matches Some(i) ==> 0 <= i < end && rows[i].visible
            && forall|k: int|
            i < k < end ==> !((#[trigger] rows[k]).visible && (depth matches Some(d)
                ==> rows[k].depth < d)),
        visible_before(rows, end, depth) is None ==> forall|k: int|
            0 <= k < end ==> !((#[trigger] rows[k]).visible && (depth matches Some(d)
                ==> rows[k].depth < d)),
    decreases end,
{
    if end > 0 && !(rows[end - 1].visible && (depth matches Some(d) ==> rows[end - 1].depth < d)) {
        lemma_visible_before(rows, end - 1, depth);
    }
}

/// Opening or closing a row hides nothing at or before it.
proof fn lemma_toggle_shows(rows: Seq<Row>, at: int, i: int)
    requires
        0 <= i <= at < rows.len(),
    ensures
        is_shown(rows.update(at, Row { expanded: !rows[at].expanded, ..rows[at] }), i) == is_shown(
            rows,
            i,
        ),
{
    let next = rows.update(at, Row { expanded: !rows[at].expanded, ..rows[at] });
    assert forall|j: int| is_above(rows, j, i) == is_above(next, j, i) by {
        if is_above(rows, j, i) {
            assert forall|k: int| j < k <= i implies (#[trigger] next[k]).depth
                > next[j].depth by {
                assert(rows[k].depth > rows[j].depth);
            }
        }
        if is_above(next, j, i) {
            assert forall|k: int| j < k <= i implies (#[trigger] rows[k]).depth
                > rows[j].depth by {
                assert(next[k].depth > next[j].depth);
            }
        }
    }
    if is_shown(rows, i) {
        assert forall|j: int| #[trigger] is_above(next, j, i) implies !is_collapsed(next[j]) by {
            assert(is_above(rows, j, i));
        }
    }
    if is_shown(next, i) {
        assert forall|j: int| #[trigger] is_above(rows, j, i) implies !is_collapsed(rows[j]) by {
            assert(is_above(next, j, i));
        }
    }
}

/// Every operation keeps a sound view sound.
pub proof fn operations_keep_soundness(v: ViewState)
    requires
        v.is_sound(),
    ensures
        v.down().is_sound(),
        v.up().is_sound(),
        or_same(v.toggle(), v).is_sound(),
        or_same(v.expand(), v).is_sound(),
        or_same(v.collapse(), v).is_sound(),
{
    lemma_next_visible(v.rows, v.cursor + 1);
    lemma_visible_before(v.rows, v.cursor, None);
    if v.rows.len() > 0 {
        lemma_visible_before(v.rows, v.cursor, Some(v.rows[v.cursor].depth));
    }
    if v.toggle() is Some {
        let at = v.cursor;
        let next = v.rows.update(at, Row { expanded: !v.rows[at].expanded, ..v.rows[at] });
        shown_is_consistent(next);
        lemma_toggle_shows(v.rows, at, at);
    }
}

/// Opening and closing a node leaves the cursor on it, and doing it twice leaves
/// the view as it was.
pub proof fn toggle_twice(v: ViewState)
    requires
        v.is_sound(),
        v.toggle() is Some,
    ensures
        v.toggle()->0.cursor == v.cursor,
        v.toggle()->0.toggle() == Some(v),
{
    let at = v.cursor;
    let r1 = v.rows.update(at, Row { expanded: !v.rows[at].expanded, ..v.rows[at] });
    lemma_toggle_shows(v.rows, at, at);
    let s1 = shown(r1);
    assert(s1[at].visible);
    let r2 = s1.update(at, Row { expanded: !s1[at].expanded, ..s1[at] });
    let s2 = shown(r2);
    assert(same_but_visibility(r2, v.rows));
    assert forall|i: int| 0 <= i < v.rows.len() implies s2[i] == v.rows[i] by {
        lemma_shown_alike(r2, v.rows, i);
        assert(v.rows[i].visible == is_shown(v.rows, i));
    }
    assert(s2 =~= v.rows);
}

/// A node that was opened, with no closed node above it, cannot be opened again, and
/// trying so leaves the view as it is.
pub proof fn expand_twice(v: ViewState)
    requires
        0 <= v.cursor < v.rows.len() ==> is_shown(v.rows, v.cursor),
    ensures
        v.expand() matches Some(w) ==> w.expand() is None,
        or_same(or_same(v.expand(), v).expand(), or_same(v.expand(), v)) == or_same(v.expand(), v),
{
    if v.expand() is Some {
        lemma_toggle_shows(v.rows, v.cursor, v.cursor);
    }
}

proof fn lemma_unseen_between(rows: Seq<Row>, at: int, end: int)
    requires
        0 <= at < end <= rows.len(),
        rows[at].visible,
        forall|k: int| at < k < end ==> !(#[trigger] rows[k]).visible,
    ensures
        visible_before(rows, end, None) == Some(at),
    decreases end,
{
    if at < end - 1 {
        assert(!rows[end - 1].visible);
        lemma_unseen_between(rows, at, end - 1);
    }
}

/// Going down from a visible row and then up comes back to it, where there is a
/// visible row below.
pub proof fn down_then_up(v: ViewState)
    requires
        0 <= v.cursor < v.rows.len(),
        v.rows[v.cursor].visible,
        v.down() != v,
    ensures
        v.down().up() == v,
{
    lemma_next_visible(v.rows, v.cursor + 1);
    let i = v.down().cursor;
    lemma_unseen_between(v.rows, v.cursor, i);
}

/// What an open node shows is hidden when it is closed.
pub proof fn closing_hides(v: ViewState, i: int)
    requires
        v.is_sound(),
        v.toggle() is Some,
        v.rows[v.cursor].expanded,
        is_above(v.rows, v.cursor, i),
    ensures
        !v.toggle()->0.rows[i].visible,
{
    let at = v.cursor;
    let next = v.rows.update(at, Row { expanded: false, ..v.rows[at] });
    assert forall|k: int| at < k <= i implies (#[trigger] next[k]).depth > next[at].depth by {
        assert(v.rows[k].depth > v.rows[at].depth);
    }
    assert(is_above(next, at, i));
    assert(is_collapsed(next[at]));
}

impl TreeView {
    /// The rows of the view.
    pub open spec fn rows(&self) -> Seq<Row> {
        views(self.nodes@)
    }

    /// Recompute visibility of all nodes based on ancestor expansion state.
    pub fn recompute_visibility(&mut self)
        ensures
            final(self).rows() == shown(old(self).rows()),
            final(self).cursor == old(self).cursor,
            is_consistent(final(self).rows()),
    {
        let ghost rows = self.rows();
        let mut hidden_below: Option<usize> = None;
        let ghost mut hider: int = 0;
        let mut i: usize = 0;
        while i < self.nodes.len()
            invariant
                i <= rows.len(),
                rows.len() == self.nodes@.len(),
                self.cursor == old(self).cursor,
                forall|k: int| 0 <= k < i ==> (#[trigger] self.nodes@[k])@ == shown(rows)[k],
                forall|k: int| i <= k < rows.len() ==> (#[trigger] self.nodes@[k])@ == rows[k],
                match hidden_below {
                    Some(t) => covers(rows, hider, i as int) && is_shown(rows, hider)
                        && rows[hider].depth == t,
                    None => forall|j: int| !#[trigger] covers(rows, j, i as int),
                },
            decreases rows.len() - i,
        {
            assert(self.nodes@[i as int]@ == rows[i as int]);
            let depth: usize = self.nodes[i].depth;
            proof {
                match hidden_below {
                    Some(t) => {
                        lemma_under_cover(rows, hider, i as int);
                    },
                    None => {
                        lemma_in_the_open(rows, i as int);
                    },
                }
            }
            if let Some(threshold) = hidden_below {
                if depth <= threshold {
                    hidden_below = None;
                }
            }
            if hidden_below.is_some() {
                self.nodes[i].visible = false;
            } else {
                self.nodes[i].visible = true;
                let is_entry = match &self.nodes[i].kind {
                    NodeKind::Entry { .. } => true,
                    _ => false,
                };
                proof {
                    lemma_covers_step(rows, i as int, i as int);
                }
                if !self.nodes[i].expanded && !is_entry {
                    hidden_below = Some(depth);
                    proof {
                        hider = i as int;
                    }
                }
            }
            assert(self.nodes@[i as int]@ == shown(rows)[i as int]);
            i = i + 1;
        }
        assert(self.rows() =~= shown(rows));
        proof {
            shown_is_consistent(rows);
        }
    }

    /// The view as its rows and its cursor.
    pub open spec fn state(&self) -> ViewState {
        ViewState { rows: self.rows(), cursor: self.cursor as int }
    }

    /// Move cursor to the next visible node.
    pub fn move_down(&mut self)
        requires
            old(self).cursor < usize::MAX,
        ensures
            final(self).state() == old(self).state().down(),
    {
        let start: usize = self.cursor + 1;
        let mut i: usize = start;
        while i < self.nodes.len()
            invariant
                start == old(self).cursor + 1,
                start <= i,
                *self == *old(self),
                next_visible(self.rows(), start as int) == next_visible(self.rows(), i as int),
            decreases self.nodes@.len() - i,
        {
            assert(self.rows()[i as int] == self.nodes@[i as int]@);
            if self.nodes[i].visible {
                self.cursor = i;
                return;
            }
            i = i + 1;
        }
    }

    /// Finds the last visible node before `end` that is less deep than `depth`.
    fn find_visible_before(&self, end: usize, depth: Option<usize>) -> (r: Option<usize>)
        requires
            end <= self.nodes@.len(),
        ensures
            match r {
                Some(i) => i < end && visible_before(self.rows(), end as int, opt_int(depth))
                    == Some(i as int),
                None => visible_before(self.rows(), end as int, opt_int(depth)) is None,
            },
    {
        let mut i: usize = end;
        while i > 0
            invariant
                i <= end <= self.nodes@.len(),
                visible_before(self.rows(), end as int, opt_int(depth)) == visible_before(
                    self.rows(),
                    i as int,
                    opt_int(depth),
                ),
            decreases i,
        {
            i = i - 1;
            assert(self.rows()[i as int] == self.nodes@[i as int]@);
            let low = match depth {
                Some(d) => self.nodes[i].depth < d,
                None => true,
            };
            if self.nodes[i].visible && low {
                return Some(i);
            }
        }
        None
    }

    /// Move cursor to the previous visible node.
    pub fn move_up(&mut self)
        requires
            old(self).cursor <= old(self).nodes@.len(),
        ensures
            final(self).state() == old(self).state().up(),
    {
        if let Some(i) = self.find_visible_before(self.cursor, None) {
            self.cursor = i;
        }
    }

    /// Toggle expand/collapse of the node at the cursor.
    /// Returns true if state changed.
    pub fn toggle(&mut self) -> (r: bool)
        ensures
            r == (old(self).state().toggle() is Some),
            final(self).state() == or_same(old(self).state().toggle(), old(self).state()),
            r ==> is_consistent(final(self).rows()),
    {
        if self.cursor >= self.nodes.len() {
            return false;
        }
        let at: usize = self.cursor;
        assert(self.rows()[at as int] == self.nodes@[at as int]@);
        match &self.nodes[at].kind {
            NodeKind::Entry { .. } => {
                return false;
            },
            NodeKind::Source { idx: _, label: _, state } => match state {
                NodeSourceState::Encrypted => {
                    return false;
                },
                NodeSourceState::Error(_) => {
                    return false;
                },
                NodeSourceState::Empty => {
                    return false;
                },
                _ => {},
            },
            _ => {},
        }
        let ghost rows = self.rows();
        let now = self.nodes[at].expanded;
        self.nodes[at].expanded = !now;
        assert(self.rows() =~= rows.update(
            at as int,
            Row { expanded: !rows[at as int].expanded, ..rows[at as int] },
        ));
        self.recompute_visibility();
        self.ensure_cursor_visible();
        true
    }

    /// Expand the node at the cursor. Returns true if state changed.
    pub fn expand(&mut self) -> (r: bool)
        ensures
            r == (old(self).state().expand() is Some),
            final(self).state() == or_same(old(self).state().expand(), old(self).state()),
            r ==> is_consistent(final(self).rows()),
    {
        if self.cursor < self.nodes.len() {
            assert(self.rows()[self.cursor as int] == self.nodes@[self.cursor as int]@);
            if self.nodes[self.cursor].expanded {
                return false;
            }
        }
        self.toggle()
    }

    /// Collapse the node at the cursor, or move to parent if already collapsed/entry.
    pub fn collapse(&mut self) -> (r: bool)
        ensures
            r == (old(self).state().collapse() is Some),
            final(self).state() == or_same(old(self).state().collapse(), old(self).state()),
    {
        if self.cursor >= self.nodes.len() {
            return false;
        }
        let at: usize = self.cursor;
        assert(self.rows()[at as int] == self.nodes@[at as int]@);
        let is_entry = match &self.nodes[at].kind {
            NodeKind::Entry { .. } => true,
            _ => false,
        };
        if !is_entry && self.nodes[at].expanded {
            return self.toggle();
        }
        let depth: usize = self.nodes[at].depth;
        match self.find_visible_before(at, Some(depth)) {
            Some(i) => {
                self.cursor = i;
                true
            },
            None => false,
        }
    }

    /// Ensure cursor is on a visible node. If not, move to the nearest visible one before it.
    fn ensure_cursor_visible(&mut self)
        requires
            old(self).cursor <= old(self).nodes@.len(),
        ensures
            final(self).nodes == old(self).nodes,
            final(self).cursor == settled(old(self).rows(), old(self).cursor as int),
    {
        if self.cursor < self.nodes.len() {
            assert(self.rows()[self.cursor as int] == self.nodes@[self.cursor as int]@);
            if self.nodes[self.cursor].visible {
                return;
            }
        }
        match self.find_visible_before(self.cursor, None) {
            Some(i) => {
                self.cursor = i;
            },
            None => {
                self.cursor = 0;
            },
        }
    }

    /// Get the node at the cursor.
    pub fn selected(&self) -> (r: Option<&TreeViewNode>)
        ensures
            match r {
                Some(n) => self.cursor < self.nodes@.len() && *n == self.nodes@[self.cursor as int],
                None => self.cursor >= self.nodes@.len(),
            },
    {
        if self.cursor < self.nodes.len() {
            Some(&self.nodes[self.cursor])
        } else {
            None
        }
    }

    /// Count visible nodes.
    pub fn visible_count(&self) -> (r: usize)
        ensures
            r == self.rows().filter(|x: Row| x.visible).len(),
    {
        let mut n: usize = 0;
        let mut i: usize = 0;
        let ghost p = |x: Row| x.visible;
        let ghost rows = self.rows();
        assert(rows.take(0).filter(p).len() == 0) by {
            reveal(Seq::filter);
        }
        while i < self.nodes.len()
            invariant
                i <= self.nodes@.len(),
                rows == self.rows(),
                p == (|x: Row| x.visible),
                n <= i,
                n == rows.take(i as int).filter(p).len(),
            decreases self.nodes@.len() - i,
        {
            proof {
                reveal(Seq::filter);
                assert(rows.take(i + 1).drop_last() =~= rows.take(i as int));
                assert(rows.take(i + 1).last() == self.nodes@[i as int]@);
            }
            if self.nodes[i].visible {
                n = n + 1;
            }
            i = i + 1;
        }
        assert(rows.take(i as int) =~= rows);
        n
    }

    /// Find the source index for the node at the cursor.
    pub fn cursor_source_idx(&self) -> (r: Option<usize>)
        requires
            self.cursor < self.nodes@.len(),
        ensures
            match r {
                Some(i) => source_at(self.rows(), self.cursor as int) == Some(i as int),
                None => source_at(self.rows(), self.cursor as int) is None,
            },
    {
        let mut i: usize = self.cursor;
        loop
            invariant
                i <= self.cursor < self.nodes@.len(),
                source_at(self.rows(), self.cursor as int) == source_at(self.rows(), i as int),
            decreases i,
        {
            assert(self.rows()[i as int] == self.nodes@[i as int]@);
            if let NodeKind::Source { idx, label: _, state: _ } = &self.nodes[i].kind {
                return Some(*idx);
            }
            assert(source_at(self.rows(), i as int) == source_at(self.rows(), i - 1));
            if i == 0 {
                assert(source_at(self.rows(), -1) is None);
                return None;
            }
            i = i - 1;
        }
    }
}

// --- Building the view ---

/// Whether one of the leaves has the given path.
pub open spec fn holds_path(s: Seq<LeafView>, path: Seq<u8>) -> bool {
    exists|i: int| 0 <= i < s.len() && same_path((#[trigger] s[i]).path, path)
}

/// Whether a leaf has the path of the default selection.
pub open spec fn is_default_leaf(leaf: LeafView, default: Option<SelectionView>) -> bool {
    default matches Some(sel) && same_path(leaf.path, sel.leaf_path)
}

/// Whether the leaf of the default selection is below the given nodes.
pub open spec fn leads_to_default(
    nodes: Seq<TreeNodeView>,
    default: Option<SelectionView>,
) -> bool {
    default matches Some(sel) && holds_path(leaves(nodes), sel.leaf_path)
}

/// The row of an entry of a leaf.
pub open spec fn entry_row(
    leaf: LeafView,
    i: int,
    depth: int,
    source_idx: int,
    default: Option<SelectionView>,
) -> Row {
    Row {
        depth,
        kind: RowKind::Entry { entry: leaf.entries[i], source_idx },
        expanded: false,
        visible: false,
        is_default: is_default_leaf(leaf, default) && leaf.entries[i].name
            == default->0.entry_name,
    }
}

/// The rows of a leaf and of its entries.
pub open spec fn leaf_rows(
    leaf: LeafView,
    depth: int,
    source_idx: int,
    default: Option<SelectionView>,
) -> Seq<Row> {
    seq![
        Row {
            depth,
            kind: RowKind::Leaf {
                name: short_name(leaf.path),
                path: leaf.path,
                entry_count: leaf.entries.len() as int,
            },
            expanded: is_default_leaf(leaf, default),
            visible: false,
            is_default: false,
        },
    ] + Seq::new(
        leaf.entries.len(),
        |i: int| entry_row(leaf, i, depth + 1, source_idx, default),
    )
}

/// The rows of a node and of what is below it. The way to the default leaf is
/// open.
pub open spec fn node_rows(
    n: TreeNodeView,
    depth: int,
    source_idx: int,
    default: Option<SelectionView>,
) -> Seq<Row>
    decreases n,
{
    match n {
        TreeNodeView::Dir { name, children } => seq![
            Row {
                depth,
                kind: RowKind::Dir { name },
                expanded: leads_to_default(children, default),
                visible: false,
                is_default: false,
            },
        ] + tree_rows(children, depth + 1, source_idx, default),
        TreeNodeView::Leaf(leaf) => leaf_rows(leaf, depth, source_idx, default),
    }
}

/// The rows of a sequence of nodes.
pub open spec fn tree_rows(
    nodes: Seq<TreeNodeView>,
    depth: int,
    source_idx: int,
    default: Option<SelectionView>,
) -> Seq<Row>
    decreases nodes,
{
    if nodes.len() == 0 {
        Seq::empty()
    } else {
        tree_rows(nodes.drop_last(), depth, source_idx, default) + node_rows(
            nodes[nodes.len() - 1],
            depth,
            source_idx,
            default,
        )
    }
}

/// The state in which a source is shown.
pub open spec fn shown_state(state: SourceStateView, is_bare: bool) -> ShownState {
    match state {
        SourceStateView::Encrypted => ShownState::Encrypted,
        SourceStateView::Error(e) => ShownState::Error(e),
        SourceStateView::Mounted => if is_bare {
            ShownState::Empty
        } else {
            ShownState::Mounted
        },
        SourceStateView::Static => if is_bare {
            ShownState::Empty
        } else {
            ShownState::Static
        },
    }
}

/// Whether a source has no boot tree, or an empty one.
pub open spec fn is_bare(trees: Seq<Seq<TreeNodeView>>, i: int) -> bool {
    i >= trees.len() || trees[i].len() == 0
}

/// The first source, from `from` on, in whose tree the default leaf is.
pub open spec fn default_source(
    trees: Seq<Seq<TreeNodeView>>,
    default: Option<SelectionView>,
    from: int,
) -> Option<int>
    decreases trees.len() - from,
{
    if from < 0 || from >= trees.len() {
        None
    } else if leads_to_default(trees[from], default) {
        Some(from)
    } else {
        default_source(trees, default, from + 1)
    }
}

/// The rows of a source and of its tree.
pub open spec fn source_rows(
    source: SourceView,
    i: int,
    trees: Seq<Seq<TreeNodeView>>,
    default: Option<SelectionView>,
) -> Seq<Row> {
    let state = shown_state(source.state, is_bare(trees, i));
    let can_open = state is Mounted || state is Static;
    seq![
        Row {
            depth: 0,
            kind: RowKind::Source { idx: i, label: source.label, state },
            expanded: can_open && default_source(trees, default, 0) == Some(i),
            visible: true,
            is_default: false,
        },
    ] + if can_open {
        tree_rows(trees[i], 1, i, default)
    } else {
        Seq::empty()
    }
}

/// The rows of the first `n` sources.
pub open spec fn sources_rows(
    sources: Seq<SourceView>,
    trees: Seq<Seq<TreeNodeView>>,
    default: Option<SelectionView>,
    n: int,
) -> Seq<Row>
    decreases n,
{
    if n <= 0 {
        Seq::empty()
    } else {
        sources_rows(sources, trees, default, n - 1) + source_rows(
            sources[n - 1],
            n - 1,
            trees,
            default,
        )
    }
}

/// The last of the first `n` rows that is the default entry.
pub open spec fn last_default(rows: Seq<Row>, n: int) -> Option<int>
    decreases n,
{
    if n <= 0 {
        None
    } else if rows[n - 1].is_default {
        Some(n - 1)
    } else {
        last_default(rows, n - 1)
    }
}

/// The view of the given sources and trees: the way to the default entry is
/// open, and the cursor is on it if it can be seen.
pub open spec fn built(
    sources: Seq<SourceView>,
    trees: Seq<Seq<TreeNodeView>>,
    default: Option<SelectionView>,
) -> ViewState {
    let rows = shown(sources_rows(sources, trees, default, sources.len() as int));
    ViewState {
        rows,
        cursor: match last_default(rows, rows.len() as int) {
            Some(i) => if rows[i].visible {
                i
            } else {
                0
            },
            None => 0,
        },
    }
}

proof fn lemma_holds_path_apart(a: Seq<LeafView>, b: Seq<LeafView>, path: Seq<u8>)
    ensures
        holds_path(a + b, path) == (holds_path(a, path) || holds_path(b, path)),
{
    let c = a + b;
    if holds_path(a, path) {
        let i = choose|i: int| 0 <= i < a.len() && same_path((#[trigger] a[i]).path, path);
        assert(c[i] == a[i]);
    }
    if holds_path(b, path) {
        let i = choose|i: int| 0 <= i < b.len() && same_path((#[trigger] b[i]).path, path);
        assert(c[a.len() + i] == b[i]);
    }
    if holds_path(c, path) {
        let i = choose|i: int| 0 <= i < c.len() && same_path((#[trigger] c[i]).path, path);
        if i < a.len() {
            assert(a[i] == c[i]);
        } else {
            assert(b[i - a.len()] == c[i]);
        }
    }
}

proof fn lemma_holds_path_one(leaf: LeafView, path: Seq<u8>)
    ensures
        holds_path(seq![leaf], path) == same_path(leaf.path, path),
{
    assert(seq![leaf][0] == leaf);
}

/// Whether a leaf with the given path is below the given nodes.
pub fn tree_contains_path(nodes: &Vec<TreeNode>, path: &BootPath) -> (r: bool)
    ensures
        r == holds_path(leaves(node_views(nodes@)), path@),
    decreases nodes,
{
    let mut i: usize = 0;
    let ghost all = leaves(node_views(nodes@));
    assert(nodes@.take(0) =~= Seq::<TreeNode>::empty());
    while i < nodes.len()
        invariant
            i <= nodes@.len(),
            !holds_path(leaves(node_views(nodes@.take(i as int))), path@),
        decreases nodes@.len() - i,
    {
        let ghost before = leaves(node_views(nodes@.take(i as int)));
        let ghost one = node_leaves(node_view(nodes@[i as int]));
        proof {
            node_views_step(nodes@, i as int);
            lemma_holds_path_apart(before, one, path@);
        }
        assert(decreases_to!(nodes => nodes@[i as int]));
        let here = match &nodes[i] {
            TreeNode::Leaf(leaf) => {
                proof {
                    lemma_holds_path_one(leaf@, path@);
                }
                leaf.path.is_same(path)
            },
            TreeNode::Dir { name: _, children } => tree_contains_path(children, path),
        };
        if here {
            proof {
                lemma_holds_path_prefix(nodes@, i + 1, path@);
            }
            return true;
        }
        i = i + 1;
    }
    assert(nodes@.take(i as int) =~= nodes@);
    false
}

proof fn lemma_holds_path_prefix(s: Seq<TreeNode>, n: int, path: Seq<u8>)
    requires
        0 <= n <= s.len(),
        holds_path(leaves(node_views(s.take(n))), path),
    ensures
        holds_path(leaves(node_views(s)), path),
    decreases s.len() - n,
{
    if n < s.len() {
        node_views_step(s, n);
        lemma_holds_path_apart(
            leaves(node_views(s.take(n))),
            node_leaves(node_view(s[n])),
            path,
        );
        lemma_holds_path_prefix(s, n + 1, path);
    } else {
        assert(s.take(n) =~= s);
    }
}

impl TreeView {
    /// Adds the nodes of a tree.
    fn add_tree_nodes(
        nodes: &mut Vec<TreeViewNode>,
        tree: &Vec<TreeNode>,
        depth: usize,
        source_idx: usize,
        default: Option<&BootSelection>,
    )
        requires
            depth <= old(nodes)@.len(),
        ensures
            views(final(nodes)@) == views(old(nodes)@) + tree_rows(
                node_views(tree@),
                depth as int,
                source_idx as int,
                opt_selection_ref(default),
            ),
        decreases tree,
    {
        let ghost start = views(nodes@);
        let ghost d = opt_selection_ref(default);
        let mut i: usize = 0;
        assert(tree@.take(0) =~= Seq::<TreeNode>::empty());
        assert(start =~= start + tree_rows(
            node_views(tree@.take(0)),
            depth as int,
            source_idx as int,
            d,
        ));
        while i < tree.len()
            invariant
                i <= tree@.len(),
                depth <= nodes@.len(),
                d == opt_selection_ref(default),
                views(nodes@) == start + tree_rows(
                    node_views(tree@.take(i as int)),
                    depth as int,
                    source_idx as int,
                    d,
                ),
            decreases tree@.len() - i,
        {
            let ghost before = views(nodes@);
            let ghost len0 = nodes@.len();
            proof {
                node_views_step(tree@, i as int);
            }
            assert(decreases_to!(tree => tree@[i as int]));
            match &tree[i] {
                TreeNode::Dir { name, children } => {
                    let expanded = match default {
                        Some(sel) => tree_contains_path(children, &sel.leaf_path),
                        None => false,
                    };
                    let ghost were = nodes@;
                    let node = TreeViewNode {
                        depth,
                        kind: NodeKind::Dir { name: name.clone() },
                        expanded,
                        visible: false,
                        is_default: false,
                    };
                    nodes.push(node);
                    assert(views(nodes@) =~= before + seq![node@]);
                    assert(nodes.len() <= usize::MAX);
                    Self::add_tree_nodes(nodes, children, depth + 1, source_idx, default);
                    assert(views(nodes@) =~= before + node_rows(
                        node_view(tree@[i as int]),
                        depth as int,
                        source_idx as int,
                        d,
                    ));
                    assert(views(nodes@).len() == nodes@.len());
                    assert(before.len() == len0);
                },
                TreeNode::Leaf(leaf) => {
                    let is_default = match default {
                        Some(sel) => leaf.path.is_same(&sel.leaf_path),
                        None => false,
                    };
                    let node = TreeViewNode {
                        depth,
                        kind: NodeKind::Leaf {
                            name: leaf.path.listing_name(),
                            path: leaf.path.clone(),
                            entry_count: leaf.entries.len(),
                        },
                        expanded: is_default,
                        visible: false,
                        is_default: false,
                    };
                    nodes.push(node);
                    assert(nodes.len() <= usize::MAX);
                    let ghost wanted = leaf_rows(leaf@, depth as int, source_idx as int, d);
                    assert(node@ == wanted[0]);
                    assert(views(nodes@) =~= before + wanted.take(1));
                    let mut k: usize = 0;
                    while k < leaf.entries.len()
                        invariant
                            k <= leaf.entries@.len(),
                            depth + 1 <= nodes@.len() <= usize::MAX,
                            d == opt_selection_ref(default),
                            is_default == is_default_leaf(leaf@, d),
                            wanted == leaf_rows(leaf@, depth as int, source_idx as int, d),
                            views(nodes@) == before + wanted.take(k + 1),
                        decreases leaf.entries@.len() - k,
                    {
                        let entry = &leaf.entries[k];
                        assert(leaf@.entries[k as int] == entry@);
                        let is_default_entry = match default {
                            Some(sel) => is_default && sel.entry_name == entry.name,
                            None => false,
                        };
                        let node = TreeViewNode {
                            depth: depth + 1,
                            kind: NodeKind::Entry { entry: entry.clone(), source_idx },
                            expanded: false,
                            visible: false,
                            is_default: is_default_entry,
                        };
                        let ghost were = views(nodes@);
                        nodes.push(node);
                        assert(nodes.len() <= usize::MAX);
                        assert(views(nodes@) =~= were.push(node@));
                        assert(wanted[k + 1] == node@);
                        assert(wanted.take(k + 2) =~= wanted.take(k + 1).push(wanted[k + 1]));
                        assert(views(nodes@) =~= before + wanted.take(k + 2));
                        k = k + 1;
                    }
                    assert(wanted.take(k + 1) =~= wanted);
                },
            }
            assert(views(nodes@) =~= start + tree_rows(
                node_views(tree@.take(i + 1)),
                depth as int,
                source_idx as int,
                d,
            ));
            i = i + 1;
        }
        assert(tree@.take(i as int) =~= tree@);
    }

    fn find_default_source(
        trees: &[(String, Vec<TreeNode>)],
        default: Option<&BootSelection>,
    ) -> (r: Option<usize>)
        ensures
            opt_int(r) == default_source(tree_views(trees@), opt_selection_ref(default), 0),
    {
        let ghost t = tree_views(trees@);
        let ghost d = opt_selection_ref(default);
        let mut i: usize = 0;
        while i < trees.len()
            invariant
                i <= trees@.len(),
                t == tree_views(trees@),
                d == opt_selection_ref(default),
                default_source(t, d, 0) == default_source(t, d, i as int),
            decreases trees@.len() - i,
        {
            assert(t[i as int] == node_views(trees@[i as int].1@));
            if let Some(sel) = default {
                if tree_contains_path(&trees[i].1, &sel.leaf_path) {
                    return Some(i);
                }
            }
            i = i + 1;
        }
        None
    }

    /// Build a tree view from sources, their parsed trees, and the default selection.
    pub fn build(
        sources: &[Source],
        trees: &[(String, Vec<TreeNode>)],
        default: Option<&BootSelection>,
    ) -> (r: TreeView)
        ensures
            r.state() == built(
                source_views(sources@),
                tree_views(trees@),
                opt_selection_ref(default),
            ),
    {
        let ghost sv = source_views(sources@);
        let ghost tv = tree_views(trees@);
        let ghost d = opt_selection_ref(default);
        let mut nodes: Vec<TreeViewNode> = Vec::new();
        let home = Self::find_default_source(trees, default);
        let mut i: usize = 0;
        assert(views(nodes@) =~= Seq::<Row>::empty());
        while i < sources.len()
            invariant
                i <= sources@.len(),
                sv == source_views(sources@),
                tv == tree_views(trees@),
                d == opt_selection_ref(default),
                opt_int(home) == default_source(tv, d, 0),
                views(nodes@) == sources_rows(sv, tv, d, i as int),
            decreases sources@.len() - i,
        {
            let src = &sources[i];
            assert(sv[i as int] == src@);
            let bare = if i < trees.len() {
                proof {
                    crate::types::node_views_index(trees@[i as int].1@);
                }
                assert(tv[i as int] == node_views(trees@[i as int].1@));
                trees[i].1.len() == 0
            } else {
                true
            };
            let state = match &src.state {
                SourceState::Mounted => if bare {
                    NodeSourceState::Empty
                } else {
                    NodeSourceState::Mounted
                },
                SourceState::Static => if bare {
                    NodeSourceState::Empty
                } else {
                    NodeSourceState::Static
                },
                SourceState::Encrypted => NodeSourceState::Encrypted,
                SourceState::Error(e) => NodeSourceState::Error(e.clone()),
            };
            let can_open = match &state {
                NodeSourceState::Mounted => true,
                NodeSourceState::Static => true,
                _ => false,
            };
            let is_home = match home {
                Some(h) => h == i,
                None => false,
            };
            let ghost before = views(nodes@);
            let node = TreeViewNode {
                depth: 0,
                kind: NodeKind::Source { idx: i, label: src.label.clone(), state },
                expanded: can_open && is_home,
                visible: true,
                is_default: false,
            };
            nodes.push(node);
            let ghost wanted = source_rows(src@, i as int, tv, d);
            assert(wanted[0] == node@);
            assert(views(nodes@) =~= before + seq![node@]);
            if can_open {
                Self::add_tree_nodes(&mut nodes, &trees[i].1, 1, i, default);
            }
            assert(views(nodes@) =~= before + wanted);
            i = i + 1;
        }
        let mut view = TreeView { nodes, cursor: 0 };
        view.recompute_visibility();
        let ghost rows = view.rows();
        let mut n: usize = view.nodes.len();
        while n > 0
            invariant
                n <= view.nodes@.len(),
                rows == view.rows(),
                view.cursor == 0,
                rows == shown(sources_rows(sv, tv, d, sources@.len() as int)),
                sv == source_views(sources@),
                tv == tree_views(trees@),
                d == opt_selection_ref(default),
                last_default(rows, rows.len() as int) == last_default(rows, n as int),
            decreases n,
        {
            n = n - 1;
            assert(rows[n as int] == view.nodes@[n as int]@);
            if view.nodes[n].is_default {
                if view.nodes[n].visible {
                    view.cursor = n;
                }
                return view;
            }
        }
        view
    }
}

// --- Laws of the view that is built ---

proof fn lemma_last_default(rows: Seq<Row>, n: int)
    requires
        0 <= n <= rows.len(),
    ensures
        last_default(rows, n) matches Some(i) ==> 0 <= i < n && rows[i].is_default,
        last_default(rows, n) is None ==> forall|i: int|
            0 <= i < n ==> !(#[trigger] rows[i]).is_default,
    decreases n,
{
    if n > 0 && !rows[n - 1].is_default {
        lemma_last_default(rows, n - 1);
    }
}

/// A view that was built is sound.
pub proof fn built_is_sound(
    sources: Seq<SourceView>,
    trees: Seq<Seq<TreeNodeView>>,
    default: Option<SelectionView>,
)
    ensures
        built(sources, trees, default).is_sound(),
{
    let raw = sources_rows(sources, trees, default, sources.len() as int);
    shown_is_consistent(raw);
    lemma_last_default(shown(raw), shown(raw).len() as int);
}

/// Whether every ancestor of a default entry is open, but for the rows of sources
/// other than `home`.
spec fn open_way(rows: Seq<Row>, home: Option<int>) -> bool {
    forall|j: int, i: int| #[trigger]
        is_above(rows, j, i) && rows[i].is_default ==> !is_collapsed(rows[j]) || (
        rows[j].kind matches RowKind::Source { idx, .. } && home != Some(idx))
}

proof fn lemma_open_way_apart(a: Seq<Row>, b: Seq<Row>, home: Option<int>)
    requires
        open_way(a, home),
        open_way(b, home),
        b.len() > 0 ==> forall|j: int| 0 <= j < a.len() ==> b[0].depth <= (#[trigger] a[j]).depth,
    ensures
        open_way(a + b, home),
{
    let c = a + b;
    assert forall|j: int, i: int| #[trigger]
        is_above(c, j, i) && c[i].is_default implies !is_collapsed(c[j]) || (
    c[j].kind matches RowKind::Source { idx, .. } && home != Some(idx)) by {
        if i < a.len() {
            assert forall|k: int| j < k <= i implies (#[trigger] a[k]).depth > a[j].depth by {
                assert(c[k].depth > c[j].depth);
            }
            assert(is_above(a, j, i));
        } else if j >= a.len() {
            let n = a.len();
            assert forall|k: int| j - n < k <= i - n implies (#[trigger] b[k]).depth > b[j
                - n].depth by {
                assert(c[k + n].depth > c[j].depth);
            }
            assert(is_above(b, j - n, i - n));
        } else {
            assert(c[a.len() as int].depth > c[j].depth);
            assert(c[a.len() as int] == b[0]);
            assert(b[0].depth <= a[j].depth);
        }
    }
}

/// What holds of the rows of a tree: they are as deep as they should be, none is
/// a source, and the way to a default entry is open.
spec fn is_tree_block(
    rows: Seq<Row>,
    nodes: Seq<TreeNodeView>,
    depth: int,
    default: Option<SelectionView>,
    home: Option<int>,
) -> bool {
    &&& forall|i: int| 0 <= i < rows.len() ==> (#[trigger] rows[i]).depth >= depth
    &&& forall|i: int| 0 <= i < rows.len() ==> !((#[trigger] rows[i]).kind is Source)
    &&& forall|i: int|
        0 <= i < rows.len() && (#[trigger] rows[i]).is_default ==> leads_to_default(nodes, default)
    &&& open_way(rows, home)
}

proof fn lemma_leaves_one(n: TreeNodeView)
    ensures
        leaves(seq![n]) == node_leaves(n),
{
    reveal_with_fuel(leaves, 2);
    assert(seq![n].drop_last() =~= Seq::<TreeNodeView>::empty());
    assert(leaves(seq![n]) =~= node_leaves(n));
}

proof fn lemma_node_block(
    n: TreeNodeView,
    depth: int,
    source_idx: int,
    default: Option<SelectionView>,
    home: Option<int>,
)
    ensures
        ({
            let rows = node_rows(n, depth, source_idx, default);
            &&& rows.len() > 0
            &&& rows[0].depth == depth
            &&& is_tree_block(rows, seq![n], depth, default, home)
        }),
    decreases n,
{
    let rows = node_rows(n, depth, source_idx, default);
    lemma_leaves_one(n);
    match n {
        TreeNodeView::Dir { name, children } => {
            lemma_tree_block(children, depth + 1, source_idx, default, home);
            let below = tree_rows(children, depth + 1, source_idx, default);
            assert(rows =~= seq![rows[0]] + below);
            assert forall|i: int| 0 <= i < rows.len() implies (#[trigger] rows[i]).depth >= depth
                && !(rows[i].kind is Source) && (rows[i].is_default ==> leads_to_default(
                children,
                default,
            )) by {
                if i > 0 {
                    assert(rows[i] == below[i - 1]);
                }
            }
            assert forall|j: int, i: int| #[trigger]
                is_above(rows, j, i) && rows[i].is_default implies !is_collapsed(rows[j]) || (
            rows[j].kind matches RowKind::Source { idx, .. } && home != Some(idx)) by {
                assert(rows[i] == below[i - 1]);
                if j > 0 {
                    assert forall|k: int| j - 1 < k <= i - 1 implies (#[trigger] below[k]).depth
                        > below[j - 1].depth by {
                        assert(rows[k + 1].depth > rows[j].depth);
                    }
                    assert(is_above(below, j - 1, i - 1));
                }
            }
        },
        TreeNodeView::Leaf(leaf) => {
            assert(rows =~= leaf_rows(leaf, depth, source_idx, default));
            assert forall|i: int| 0 < i < rows.len() implies #[trigger] rows[i] == entry_row(
                leaf,
                i - 1,
                depth + 1,
                source_idx,
                default,
            ) by {}
            if is_default_leaf(leaf, default) {
                lemma_holds_path_one(leaf, default->0.leaf_path);
            }
        },
    }
}

proof fn lemma_tree_block(
    nodes: Seq<TreeNodeView>,
    depth: int,
    source_idx: int,
    default: Option<SelectionView>,
    home: Option<int>,
)
    ensures
        is_tree_block(
            tree_rows(nodes, depth, source_idx, default),
            nodes,
            depth,
            default,
            home,
        ),
    decreases nodes,
{
    let rows = tree_rows(nodes, depth, source_idx, default);
    if nodes.len() > 0 {
        let init = nodes.drop_last();
        let last = nodes[nodes.len() - 1];
        lemma_tree_block(init, depth, source_idx, default, home);
        lemma_node_block(last, depth, source_idx, default, home);
        let a = tree_rows(init, depth, source_idx, default);
        let b = node_rows(last, depth, source_idx, default);
        lemma_open_way_apart(a, b, home);
        lemma_leaves_one(last);
        if let Some(sel) = default {
            lemma_holds_path_apart(leaves(init), node_leaves(last), sel.leaf_path);
        }
        assert forall|i: int| 0 <= i < rows.len() implies (#[trigger] rows[i]).depth >= depth && !(
        rows[i].kind is Source) && (rows[i].is_default ==> leads_to_default(nodes, default)) by {
            if i < a.len() {
                assert(rows[i] == a[i]);
            } else {
                assert(rows[i] == b[i - a.len()]);
            }
        }
    }
}

/// The rows of a tree are not those of sources and not above its depth, and the
/// default is among them only if its leaf is in the tree.
pub(crate) proof fn lemma_tree_rows(
    nodes: Seq<TreeNodeView>,
    depth: int,
    source_idx: int,
    default: Option<SelectionView>,
)
    ensures
        ({
            let rows = tree_rows(nodes, depth, source_idx, default);
            forall|i: int|
                0 <= i < rows.len() ==> !((#[trigger] rows[i]).kind is Source) && rows[i].depth
                    >= depth && (rows[i].is_default ==> leads_to_default(nodes, default))
        }),
{
    lemma_tree_block(nodes, depth, source_idx, default, None);
}

/// What holds of the rows of sources.
spec fn is_source_block(rows: Seq<Row>, home: Option<int>) -> bool {
    &&& forall|i: int| 0 <= i < rows.len() ==> (#[trigger] rows[i]).depth >= 0
    &&& forall|i: int|
        0 <= i < rows.len() && (#[trigger] rows[i]).kind is Source ==> rows[i].depth == 0
    &&& open_way(rows, home)
}

proof fn lemma_source_block(
    source: SourceView,
    i: int,
    trees: Seq<Seq<TreeNodeView>>,
    default: Option<SelectionView>,
)
    requires
        0 <= i,
    ensures
        is_source_block(
            source_rows(source, i, trees, default),
            default_source(trees, default, 0),
        ),
{
    let home = default_source(trees, default, 0);
    let rows = source_rows(source, i, trees, default);
    let state = shown_state(source.state, is_bare(trees, i));
    if state is Mounted || state is Static {
        lemma_tree_block(trees[i], 1, i, default, home);
        let below = tree_rows(trees[i], 1, i, default);
        assert forall|k: int| 0 < k < rows.len() implies #[trigger] rows[k] == below[k - 1] by {}
        assert forall|j: int, k: int| #[trigger]
            is_above(rows, j, k) && rows[k].is_default implies !is_collapsed(rows[j]) || (
        rows[j].kind matches RowKind::Source { idx, .. } && home != Some(idx)) by {
            if j > 0 {
                assert forall|m: int| j - 1 < m <= k - 1 implies (#[trigger] below[m]).depth
                    > below[j - 1].depth by {
                    assert(rows[m + 1].depth > rows[j].depth);
                }
                assert(is_above(below, j - 1, k - 1));
            }
        }
    }
}

proof fn lemma_sources_block(
    sources: Seq<SourceView>,
    trees: Seq<Seq<TreeNodeView>>,
    default: Option<SelectionView>,
    n: int,
)
    ensures
        is_source_block(
            sources_rows(sources, trees, default, n),
            default_source(trees, default, 0),
        ),
    decreases n,
{
    if n > 0 {
        let home = default_source(trees, default, 0);
        lemma_sources_block(sources, trees, default, n - 1);
        lemma_source_block(sources[n - 1], n - 1, trees, default);
        let a = sources_rows(sources, trees, default, n - 1);
        let b = source_rows(sources[n - 1], n - 1, trees, default);
        lemma_open_way_apart(a, b, home);
        let c = a + b;
        assert forall|i: int| 0 <= i < c.len() implies (#[trigger] c[i]).depth >= 0 && (
        c[i].kind is Source ==> c[i].depth == 0) by {
            if i < a.len() {
                assert(c[i] == a[i]);
            } else {
                assert(c[i] == b[i - a.len()]);
            }
        }
    }
}

pub(crate) proof fn lemma_source_above(rows: Seq<Row>, j: int, i: int)
    requires
        0 <= j <= i < rows.len(),
        rows[j].kind is Source,
        forall|k: int| j < k <= i ==> !((#[trigger] rows[k]).kind is Source),
    ensures
        source_at(rows, i) == Some(rows[j].kind->idx),
    decreases i - j,
{
    if j < i {
        lemma_source_above(rows, j, i - 1);
    }
}

pub(crate) proof fn lemma_source_at_alike(a: Seq<Row>, b: Seq<Row>, i: int)
    requires
        same_but_visibility(a, b),
    ensures
        source_at(a, i) == source_at(b, i),
    decreases i + 1,
{
    if 0 <= i < a.len() {
        assert(a[i].kind == b[i].kind);
        lemma_source_at_alike(a, b, i - 1);
    }
}

/// The row of a default entry can be seen if it belongs to the first source whose
/// tree holds the default leaf.
pub proof fn default_can_be_seen(
    sources: Seq<SourceView>,
    trees: Seq<Seq<TreeNodeView>>,
    default: Option<SelectionView>,
    i: int,
)
    requires
        0 <= i < built(sources, trees, default).rows.len(),
        built(sources, trees, default).rows[i].is_default,
        source_at(built(sources, trees, default).rows, i) == default_source(trees, default, 0),
    ensures
        built(sources, trees, default).rows[i].visible,
{
    let home = default_source(trees, default, 0);
    let raw = sources_rows(sources, trees, default, sources.len() as int);
    let rows = shown(raw);
    assert(same_but_visibility(rows, raw));
    lemma_source_at_alike(rows, raw, i);
    lemma_sources_block(sources, trees, default, sources.len() as int);
    assert forall|j: int| #[trigger] is_above(raw, j, i) implies !is_collapsed(raw[j]) by {
        if is_collapsed(raw[j]) {
            assert forall|k: int| j < k <= i implies !((#[trigger] raw[k]).kind is Source) by {
                assert(raw[k].depth > raw[j].depth);
                assert(raw[j].depth >= 0);
            }
            lemma_source_above(raw, j, i);
        }
    }
}

/// The cursor of a view that was built is on the default entry, if the last row
/// of a default entry belongs to the first source whose tree holds its leaf.
pub proof fn cursor_starts_on_default(
    sources: Seq<SourceView>,
    trees: Seq<Seq<TreeNodeView>>,
    default: Option<SelectionView>,
    i: int,
)
    requires
        ({
            let rows = built(sources, trees, default).rows;
            &&& last_default(rows, rows.len() as int) == Some(i)
            &&& source_at(rows, i) == default_source(trees, default, 0)
        }),
    ensures
        built(sources, trees, default).cursor == i,
{
    let rows = built(sources, trees, default).rows;
    lemma_last_default(rows, rows.len() as int);
    default_can_be_seen(sources, trees, default, i);
}

/// Whether every source row names one of `n` sources.
pub open spec fn names_sources(rows: Seq<Row>, n: int) -> bool {
    forall|i: int|
        0 <= i < rows.len() ==> (#[trigger] rows[i].kind matches RowKind::Source { idx, .. } ==> 0
            <= idx < n)
}

proof fn lemma_source_rows_named(
    source: SourceView,
    i: int,
    trees: Seq<Seq<TreeNodeView>>,
    default: Option<SelectionView>,
)
    requires
        0 <= i,
    ensures
        names_sources(source_rows(source, i, trees, default), i + 1),
{
    let rows = source_rows(source, i, trees, default);
    let state = shown_state(source.state, is_bare(trees, i));
    if state is Mounted || state is Static {
        lemma_tree_block(trees[i], 1, i, default, None);
        let below = tree_rows(trees[i], 1, i, default);
        assert forall|k: int| 0 <= k < rows.len() implies (
        #[trigger] rows[k].kind matches RowKind::Source { idx, .. } ==> 0 <= idx < i + 1) by {
            if k > 0 {
                assert(rows[k] == below[k - 1]);
            }
        }
    }
}

proof fn lemma_sources_rows_named(
    sources: Seq<SourceView>,
    trees: Seq<Seq<TreeNodeView>>,
    default: Option<SelectionView>,
    n: int,
)
    requires
        0 <= n,
    ensures
        names_sources(sources_rows(sources, trees, default, n), n),
    decreases n,
{
    if n > 0 {
        lemma_sources_rows_named(sources, trees, default, n - 1);
        lemma_source_rows_named(sources[n - 1], n - 1, trees, default);
        let a = sources_rows(sources, trees, default, n - 1);
        let b = source_rows(sources[n - 1], n - 1, trees, default);
        let c = sources_rows(sources, trees, default, n);
        assert forall|k: int| 0 <= k < c.len() implies (
        #[trigger] c[k].kind matches RowKind::Source { idx, .. } ==> 0 <= idx < n) by {
            if k < a.len() {
                assert(c[k].kind == a[k].kind);
            } else {
                assert(c[k].kind == b[k - a.len()].kind);
            }
        }
    }
}

/// The source rows of a view that was built name its sources.
pub proof fn built_names_sources(
    sources: Seq<SourceView>,
    trees: Seq<Seq<TreeNodeView>>,
    default: Option<SelectionView>,
)
    ensures
        names_sources(built(sources, trees, default).rows, sources.len() as int),
{
    let n = sources.len() as int;
    lemma_sources_rows_named(sources, trees, default, n);
    let raw = sources_rows(sources, trees, default, n);
    let rows = shown(raw);
    assert forall|k: int| 0 <= k < rows.len() implies (
    #[trigger] rows[k].kind matches RowKind::Source { idx, .. } ==> 0 <= idx < n) by {
        assert(rows[k].kind == raw[k].kind);
    }
}

/// No operation changes what the rows stand for.
pub proof fn operations_keep_kinds(v: ViewState, n: int)
    requires
        names_sources(v.rows, n),
    ensures
        names_sources(v.down().rows, n),
        names_sources(v.up().rows, n),
        names_sources(or_same(v.toggle(), v).rows, n),
        names_sources(or_same(v.expand(), v).rows, n),
        names_sources(or_same(v.collapse(), v).rows, n),
{
    if v.toggle() is Some {
        let rows = v.toggle()->0.rows;
        assert forall|k: int| 0 <= k < rows.len() implies (
        #[trigger] rows[k].kind matches RowKind::Source { idx, .. } ==> 0 <= idx < n) by {
            assert(rows[k].kind == v.rows[k].kind);
        }
    }
}

/// The source of a row is one that is named.
pub proof fn source_at_is_named(rows: Seq<Row>, at: int, n: int)
    requires
        names_sources(rows, n),
    ensures
        source_at(rows, at) matches Some(i) ==> 0 <= i < n,
    decreases at + 1,
{
    if 0 <= at < rows.len() {
        if let RowKind::Source { idx, .. } = rows[at].kind {
        } else {
            source_at_is_named(rows, at - 1, n);
        }
    }
}

} // verus!
