//! Screens as text with terminal control sequences.

use vstd::prelude::*;
use vstd::utf8::encode_utf8;

use crate::menu::{ItemState, ItemView, Mark, Menu, MenuItem, MenuView, spaces};
use crate::path::{below, path_text, BootPath};
use crate::text::{decimal, push_decimal};
use crate::treeview::{
    NodeKind, NodeSourceState, Row, RowKind, ShownState, TreeView, TreeViewNode, ViewState,
};

verus! {

// --- Control sequences ---

pub fn clear_screen(w: &mut String)
    ensures
        final(w)@ == old(w)@ + "\x1b[2J\x1b[H"@,
{
    w.append("\x1b[2J\x1b[H");
}

/// The sequence that moves the cursor.
pub open spec fn cursor_to(row: nat, col: nat) -> Seq<char> {
    "\x1b["@ + decimal(row) + ";"@ + decimal(col) + "H"@
}

pub fn move_cursor(w: &mut String, row: u16, col: u16)
    ensures
        final(w)@ == old(w)@ + cursor_to(row as nat, col as nat),
{
    w.append("\x1b[");
    push_decimal(w, row as u64);
    w.append(";");
    push_decimal(w, col as u64);
    w.append("H");
    assert(w@ =~= old(w)@ + cursor_to(row as nat, col as nat));
}

pub fn set_bold(w: &mut String)
    ensures
        final(w)@ == old(w)@ + "\x1b[1m"@,
{
    w.append("\x1b[1m");
}

pub fn set_reverse(w: &mut String)
    ensures
        final(w)@ == old(w)@ + "\x1b[7m"@,
{
    w.append("\x1b[7m");
}

pub fn reset_style(w: &mut String)
    ensures
        final(w)@ == old(w)@ + "\x1b[0m"@,
{
    w.append("\x1b[0m");
}

pub fn set_dim(w: &mut String)
    ensures
        final(w)@ == old(w)@ + "\x1b[2m"@,
{
    w.append("\x1b[2m");
}

pub fn hide_cursor(w: &mut String)
    ensures
        final(w)@ == old(w)@ + "\x1b[?25l"@,
{
    w.append("\x1b[?25l");
}

pub fn show_cursor(w: &mut String)
    ensures
        final(w)@ == old(w)@ + "\x1b[?25h"@,
{
    w.append("\x1b[?25h");
}

/// What is written when the menu is left.
pub fn cleanup(w: &mut String)
    ensures
        final(w)@ == old(w)@ + "\x1b[?25h"@ + "\x1b[2J\x1b[H"@,
{
    show_cursor(w);
    clear_screen(w);
}

// --- Parts of a screen ---

/// The start of every screen: the name of the program.
pub open spec fn program_name() -> Seq<char> {
    "\x1b[2J\x1b[H"@ + cursor_to(1, 1) + "\x1b[1m"@ + " kexec-menu"@ + "\x1b[0m"@
}

/// What is being shown, behind the name of the program.
pub open spec fn crumb(breadcrumb: Seq<char>) -> Seq<char> {
    "\x1b[2m"@ + " > "@ + breadcrumb + "\x1b[0m"@
}

/// The title bar, with what is being shown.
pub open spec fn title_bar(breadcrumb: Seq<char>) -> Seq<char> {
    program_name() + (if breadcrumb.len() > 0 {
        crumb(breadcrumb)
    } else {
        Seq::empty()
    }) + "\r\n\r\n"@
}

/// The heading.
pub open spec fn heading(title: Seq<char>) -> Seq<char> {
    "\x1b[1m"@ + " "@ + title + "\r\n"@ + "\x1b[0m"@ + "\r\n"@
}

/// The hint bar.
pub open spec fn hint_bar(hint: Seq<char>) -> Seq<char> {
    "\r\n"@ + "\x1b[2m"@ + " "@ + hint + "\x1b[0m"@
}

fn put_program_name(w: &mut String)
    ensures
        final(w)@ == old(w)@ + program_name(),
{
    clear_screen(w);
    move_cursor(w, 1, 1);
    set_bold(w);
    w.append(" kexec-menu");
    reset_style(w);
    assert(w@ =~= old(w)@ + program_name());
}

fn put_crumb(w: &mut String, breadcrumb: &str)
    ensures
        final(w)@ == old(w)@ + crumb(breadcrumb@),
{
    set_dim(w);
    w.append(" > ");
    w.append(breadcrumb);
    reset_style(w);
    assert(w@ =~= old(w)@ + crumb(breadcrumb@));
}

fn put_title_bar(w: &mut String, breadcrumb: &str)
    ensures
        final(w)@ == old(w)@ + title_bar(breadcrumb@),
{
    put_program_name(w);
    if text_is_some(breadcrumb) {
        put_crumb(w, breadcrumb);
    }
    w.append("\r\n\r\n");
    assert(w@ =~= old(w)@ + title_bar(breadcrumb@));
}

fn put_heading(w: &mut String, title: &str)
    ensures
        final(w)@ == old(w)@ + heading(title@),
{
    set_bold(w);
    w.append(" ");
    w.append(title);
    w.append("\r\n");
    reset_style(w);
    w.append("\r\n");
    assert(w@ =~= old(w)@ + heading(title@));
}

fn put_hint_bar(w: &mut String, hint: &str)
    ensures
        final(w)@ == old(w)@ + hint_bar(hint@),
{
    w.append("\r\n");
    set_dim(w);
    w.append(" ");
    w.append(hint);
    reset_style(w);
    assert(w@ =~= old(w)@ + hint_bar(hint@));
}

/// Whether a text has any characters.
fn text_is_some(s: &str) -> (r: bool)
    ensures
        r == (s@.len() > 0),
{
    s.unicode_len() > 0
}

// --- Menu screens ---

/// The sign before an item.
pub open spec fn mark_sign(state: Mark) -> Seq<char> {
    match state {
        Mark::Default => "*"@,
        Mark::Locked => "L"@,
        Mark::Error(_) => "!"@,
        Mark::Normal => " "@,
    }
}

/// What follows the label of an item: its detail, behind the end of the reversed
/// part if it is at the cursor.
pub open spec fn item_end(detail: Seq<char>, is_cursor: bool) -> Seq<char> {
    (if is_cursor {
        "\x1b[0m"@
    } else {
        Seq::empty()
    }) + (if detail.len() > 0 {
        "\x1b[2m"@ + "  "@ + detail + "\x1b[0m"@
    } else {
        Seq::empty()
    })
}

/// The line of an item. The one at the cursor is in reverse, up to its detail.
pub open spec fn item_line(item: ItemView, is_cursor: bool) -> Seq<char> {
    " "@ + (if is_cursor {
        "\x1b[7m"@
    } else {
        Seq::empty()
    }) + " "@ + mark_sign(item.state) + " "@ + item.label + item_end(item.detail, is_cursor)
        + "\r\n"@
}

/// The lines of the first `n` items.
pub open spec fn item_lines(menu: MenuView, n: int) -> Seq<char>
    decreases n,
{
    if n <= 0 {
        Seq::empty()
    } else {
        item_lines(menu, n - 1) + item_line(menu.items[n - 1], n - 1 == menu.cursor)
    }
}

/// A menu screen.
pub open spec fn menu_screen(
    title: Seq<char>,
    breadcrumb: Seq<char>,
    menu: MenuView,
    hint: Seq<char>,
) -> Seq<char> {
    title_bar(breadcrumb) + heading(title) + item_lines(menu, menu.items.len() as int) + hint_bar(
        hint,
    )
}

fn put_mark(w: &mut String, state: &ItemState)
    ensures
        final(w)@ == old(w)@ + mark_sign(state@),
{
    let sign = match state {
        ItemState::Default => "*",
        ItemState::Locked => "L",
        ItemState::Error(_) => "!",
        ItemState::Normal => " ",
    };
    w.append(sign);
}

fn put_detail(w: &mut String, detail: &str, is_cursor: bool)
    ensures
        final(w)@ == old(w)@ + item_end(detail@, is_cursor),
{
    if text_is_some(detail) {
        if is_cursor {
            reset_style(w);
        }
        set_dim(w);
        w.append("  ");
        w.append(detail);
        reset_style(w);
    } else if is_cursor {
        reset_style(w);
    }
    assert(w@ =~= old(w)@ + item_end(detail@, is_cursor));
}

fn put_item(w: &mut String, item: &MenuItem, is_cursor: bool)
    ensures
        final(w)@ == old(w)@ + item_line(item@, is_cursor),
{
    w.append(" ");
    if is_cursor {
        set_reverse(w);
    }
    w.append(" ");
    put_mark(w, &item.state);
    w.append(" ");
    w.append(item.label.as_str());
    put_detail(w, item.detail.as_str(), is_cursor);
    w.append("\r\n");
    assert(w@ =~= old(w)@ + item_line(item@, is_cursor));
}

/// Render a menu screen.
pub fn render_menu(w: &mut String, title: &str, breadcrumb: &str, menu: &Menu, hint: &str)
    ensures
        final(w)@ == old(w)@ + menu_screen(title@, breadcrumb@, menu@, hint@),
{
    let ghost start = w@;
    put_title_bar(w, breadcrumb);
    put_heading(w, title);
    let ghost top = title_bar(breadcrumb@) + heading(title@);
    let mut i: usize = 0;
    assert(w@ =~= start + top + item_lines(menu@, 0));
    while i < menu.items.len()
        invariant
            i <= menu.items@.len(),
            w@ == start + top + item_lines(menu@, i as int),
        decreases menu.items@.len() - i,
    {
        put_item(w, &menu.items[i], i == menu.cursor);
        assert(menu@.items[i as int] == menu.items@[i as int]@);
        i = i + 1;
        assert(w@ =~= start + top + item_lines(menu@, i as int));
    }
    put_hint_bar(w, hint);
    assert(w@ =~= start + menu_screen(title@, breadcrumb@, menu@, hint@));
}

/// Render the source list screen.
pub fn render_sources(w: &mut String, menu: &Menu)
    ensures
        final(w)@ == old(w)@ + menu_screen(
            "Boot Sources"@,
            ""@,
            menu@,
            "↑↓ navigate  Enter select  q quit"@,
        ),
{
    render_menu(w, "Boot Sources", "", menu, "↑↓ navigate  Enter select  q quit");
}

/// Render the boot tree screen.
pub fn render_boot_tree(w: &mut String, source_label: &str, menu: &Menu)
    ensures
        final(w)@ == old(w)@ + menu_screen(
            "Boot Tree"@,
            source_label@,
            menu@,
            "↑↓ navigate  Enter select  Esc back  f full filesystem"@,
        ),
{
    render_menu(
        w,
        "Boot Tree",
        source_label,
        menu,
        "↑↓ navigate  Enter select  Esc back  f full filesystem",
    );
}

/// Render the entry list screen.
pub fn render_entries(w: &mut String, source_label: &str, leaf_label: &str, menu: &Menu)
    ensures
        final(w)@ == old(w)@ + menu_screen(
            "Boot Entries"@,
            source_label@ + " > "@ + leaf_label@,
            menu@,
            "↑↓ navigate  Enter boot  Esc back"@,
        ),
{
    let mut breadcrumb = source_label.to_owned();
    breadcrumb.append(" > ");
    breadcrumb.append(leaf_label);
    render_menu(
        w,
        "Boot Entries",
        breadcrumb.as_str(),
        menu,
        "↑↓ navigate  Enter boot  Esc back",
    );
}

// --- The passphrase prompt ---

/// A number of asterisks.
pub open spec fn asterisks(n: nat) -> Seq<char> {
    Seq::new(n, |i: int| '*')
}

/// What went wrong before, below the prompt.
pub open spec fn error_lines(error: Option<Seq<char>>) -> Seq<char> {
    match error {
        Some(e) => "\r\n"@ + "\x1b[1m"@ + " Error: "@ + "\x1b[0m"@ + e + "\r\n"@,
        None => Seq::empty(),
    }
}

/// The passphrase prompt. One asterisk stands for each byte of the passphrase.
pub open spec fn passphrase_screen(
    source_label: Seq<char>,
    input: Seq<char>,
    error: Option<Seq<char>>,
) -> Seq<char> {
    program_name() + crumb(source_label) + "\r\n\r\n"@ + heading("Unlock Encrypted Source"@)
        + " Passphrase: "@ + asterisks(encode_utf8(input).len()) + "\x1b[?25h"@ + "\r\n"@
        + error_lines(error) + hint_bar("Enter submit  Esc cancel"@)
}

/// The view of an optional text.
pub open spec fn opt_str(s: Option<&str>) -> Option<Seq<char>> {
    match s {
        Some(t) => Some(t@),
        None => None,
    }
}

fn put_asterisks(w: &mut String, n: usize)
    ensures
        final(w)@ == old(w)@ + asterisks(n as nat),
{
    let ghost start = w@;
    let mut i: usize = 0;
    assert(w@ =~= start + asterisks(0));
    while i < n
        invariant
            i <= n,
            w@ == start + asterisks(i as nat),
        decreases n - i,
    {
        w.push('*');
        i = i + 1;
        assert(w@ =~= start + asterisks(i as nat));
    }
}

fn put_error(w: &mut String, error: Option<&str>)
    ensures
        final(w)@ == old(w)@ + error_lines(opt_str(error)),
{
    if let Some(err) = error {
        w.append("\r\n");
        set_bold(w);
        w.append(" Error: ");
        reset_style(w);
        w.append(err);
        w.append("\r\n");
    }
    assert(w@ =~= old(w)@ + error_lines(opt_str(error)));
}

/// Render the passphrase prompt screen.
pub fn render_passphrase(w: &mut String, source_label: &str, input: &str, error: Option<&str>)
    ensures
        final(w)@ == old(w)@ + passphrase_screen(source_label@, input@, opt_str(error)),
{
    put_program_name(w);
    put_crumb(w, source_label);
    w.append("\r\n\r\n");
    put_heading(w, "Unlock Encrypted Source");
    w.append(" Passphrase: ");
    put_asterisks(w, input.as_bytes().len());
    show_cursor(w);
    w.append("\r\n");
    put_error(w, error);
    put_hint_bar(w, "Enter submit  Esc cancel");
    assert(w@ =~= old(w)@ + passphrase_screen(source_label@, input@, opt_str(error)));
}

/// The prompt shows nothing of a passphrase but how many bytes it has.
pub proof fn passphrase_not_shown(
    source_label: Seq<char>,
    a: Seq<char>,
    b: Seq<char>,
    error: Option<Seq<char>>,
)
    requires
        encode_utf8(a).len() == encode_utf8(b).len(),
    ensures
        passphrase_screen(source_label, a, error) == passphrase_screen(source_label, b, error),
{
}

// --- The file browser ---

/// The directory being browsed, as seen from the root of the filesystem.
pub open spec fn browsed_path(current_dir: Seq<u8>, root: Seq<u8>) -> Seq<char> {
    let rel = match below(current_dir, root) {
        Some(r) => r,
        None => current_dir,
    };
    if rel.len() == 0 {
        "/"@
    } else {
        "/"@ + path_text(rel)
    }
}

/// Render the file browser screen.
pub fn render_file_browser(
    w: &mut String,
    source_label: &str,
    current_dir: &BootPath,
    root: &BootPath,
    menu: &Menu,
)
    ensures
        final(w)@ == old(w)@ + menu_screen(
            browsed_path(current_dir@, root@),
            source_label@ + " [fs]"@,
            menu@,
            "↑↓ navigate  Enter open  Esc back  b boot tree"@,
        ),
{
    let rel = match current_dir.strip_prefix(root) {
        Some(r) => r,
        None => current_dir.clone(),
    };
    let mut path = "/".to_owned();
    if rel.bytes.len() > 0 {
        path.append(rel.to_text().as_str());
    }
    let mut breadcrumb = source_label.to_owned();
    breadcrumb.append(" [fs]");
    render_menu(
        w,
        path.as_str(),
        breadcrumb.as_str(),
        menu,
        "↑↓ navigate  Enter open  Esc back  b boot tree",
    );
}

// --- The tree view ---

/// The sign before a node.
pub open spec fn row_sign(r: Row) -> Seq<char> {
    match r.kind {
        RowKind::Entry { .. } => if r.is_default {
            "* "@
        } else {
            "  "@
        },
        RowKind::Source { state: ShownState::Encrypted, .. } => "L "@,
        RowKind::Source { state: ShownState::Error(_), .. } => "! "@,
        RowKind::Source { state: ShownState::Empty, .. } => "  "@,
        _ => if r.expanded {
            "- "@
        } else {
            "+ "@
        },
    }
}

/// What a node is called.
pub open spec fn row_name(r: Row) -> Seq<char> {
    match r.kind {
        RowKind::Source { label, .. } => label,
        RowKind::Dir { name } => name + "/"@,
        RowKind::Leaf { name, .. } => name,
        RowKind::Entry { entry, .. } => entry.name,
    }
}

/// The line of a node. The one at the cursor is in reverse; one that is not
/// visible has none.
pub open spec fn row_line(r: Row, is_cursor: bool) -> Seq<char> {
    if !r.visible {
        Seq::empty()
    } else {
        " "@ + (if is_cursor {
            "\x1b[7m"@
        } else {
            Seq::empty()
        }) + spaces((2 * r.depth) as nat) + row_sign(r) + row_name(r) + (if is_cursor {
            "\x1b[0m"@
        } else {
            Seq::empty()
        }) + "\r\n"@
    }
}

/// The lines of the first `n` nodes.
pub open spec fn row_lines(v: ViewState, n: int) -> Seq<char>
    decreases n,
{
    if n <= 0 {
        Seq::empty()
    } else {
        row_lines(v, n - 1) + row_line(v.rows[n - 1], n - 1 == v.cursor)
    }
}

/// The tree view screen.
pub open spec fn tree_view_screen(v: ViewState) -> Seq<char> {
    title_bar(Seq::empty()) + heading("Boot Sources"@) + row_lines(v, v.rows.len() as int)
        + hint_bar(
        "↑↓ navigate  ←→ fold  Enter select  f full filesystem  r rescan  s shell  q quit"@,
    )
}

fn put_spaces(w: &mut String, depth: usize)
    ensures
        final(w)@ == old(w)@ + spaces((2 * depth) as nat),
{
    let ghost start = w@;
    let mut i: usize = 0;
    assert(w@ =~= start + spaces(0));
    while i < depth
        invariant
            i <= depth,
            w@ == start + spaces((2 * i) as nat),
        decreases depth - i,
    {
        w.push(' ');
        w.push(' ');
        i = i + 1;
        assert(w@ =~= start + spaces((2 * i) as nat));
    }
}

fn put_sign(w: &mut String, node: &TreeViewNode)
    ensures
        final(w)@ == old(w)@ + row_sign(node@),
{
    let sign = match &node.kind {
        NodeKind::Entry { .. } => if node.is_default {
            "* "
        } else {
            "  "
        },
        NodeKind::Source { idx: _, label: _, state: NodeSourceState::Encrypted } => "L ",
        NodeKind::Source { idx: _, label: _, state: NodeSourceState::Error(_) } => "! ",
        NodeKind::Source { idx: _, label: _, state: NodeSourceState::Empty } => "  ",
        _ => if node.expanded {
            "- "
        } else {
            "+ "
        },
    };
    w.append(sign);
}

fn put_name(w: &mut String, node: &TreeViewNode)
    ensures
        final(w)@ == old(w)@ + row_name(node@),
{
    match &node.kind {
        NodeKind::Source { idx: _, label, state: _ } => {
            w.append(label.as_str());
        },
        NodeKind::Dir { name } => {
            w.append(name.as_str());
            w.append("/");
        },
        NodeKind::Leaf { name, path: _, entry_count: _ } => {
            w.append(name.as_str());
        },
        NodeKind::Entry { entry, source_idx: _ } => {
            w.append(entry.name.as_str());
        },
    }
    assert(w@ =~= old(w)@ + row_name(node@));
}

fn put_row(w: &mut String, node: &TreeViewNode, is_cursor: bool)
    ensures
        final(w)@ == old(w)@ + row_line(node@, is_cursor),
{
    if node.visible {
        w.append(" ");
        if is_cursor {
            set_reverse(w);
        }
        put_spaces(w, node.depth);
        put_sign(w, node);
        put_name(w, node);
        if is_cursor {
            reset_style(w);
        }
        w.append("\r\n");
    }
    assert(w@ =~= old(w)@ + row_line(node@, is_cursor));
}

/// Render the tree view screen.
pub fn render_tree_view(w: &mut String, view: &TreeView)
    ensures
        final(w)@ == old(w)@ + tree_view_screen(view.state()),
{
    let ghost start = w@;
    let ghost v = view.state();
    put_title_bar(w, "");
    proof {
        reveal_strlit("");
        assert(""@ =~= Seq::<char>::empty());
    }
    put_heading(w, "Boot Sources");
    let ghost top = title_bar(Seq::empty()) + heading("Boot Sources"@);
    let mut i: usize = 0;
    assert(w@ =~= start + top + row_lines(v, 0));
    while i < view.nodes.len()
        invariant
            i <= view.nodes@.len(),
            v == view.state(),
            w@ == start + top + row_lines(v, i as int),
        decreases view.nodes@.len() - i,
    {
        put_row(w, &view.nodes[i], i == view.cursor);
        assert(v.rows[i as int] == view.nodes@[i as int]@);
        i = i + 1;
        assert(w@ =~= start + top + row_lines(v, i as int));
    }
    put_hint_bar(
        w,
        "↑↓ navigate  ←→ fold  Enter select  f full filesystem  r rescan  s shell  q quit",
    );
    assert(w@ =~= start + tree_view_screen(v));
}

/// Render the countdown below the tree view.
pub fn render_countdown(w: &mut String, secs: u16)
    ensures
        final(w)@ == old(w)@ + "\r\n\r\n Booting default entry in "@ + decimal(secs as nat)
            + "s, press any key to cancel"@,
{
    w.append("\r\n\r\n Booting default entry in ");
    push_decimal(w, secs as u64);
    w.append("s, press any key to cancel");
}

} // verus!
