//! Paths as the bytes that the operating system uses, read component by
//! component.
//!
//! Repeated separators, trailing separators and `.` components carry no meaning
//! (except a `.` that a relative path begins with), so two paths are the same
//! when their components are.

use vstd::prelude::*;
use vstd::std_specs::cmp::PartialEqSpecImpl;

use crate::text::{copy_bytes, lossy_text, push_bytes, same_bytes};
use crate::text::utf8_lossy;

verus! {

// --- The meaning of a path ---

/// A component of a path.
pub enum Part {
    /// The root directory.
    Root,
    /// A leading `.`.
    Here,
    /// `..`.
    Up,
    /// A file name.
    Name(Seq<u8>),
}

/// A component of a path, and the bytes of the path that hold it.
pub struct Span {
    pub part: Part,
    pub start: int,
    pub end: int,
}

/// The position of the first separator at or after `from`, or the length.
pub open spec fn sep_at(b: Seq<u8>, from: int) -> int
    decreases b.len() - from,
{
    if from >= b.len() {
        b.len() as int
    } else if b[from] == 47 {
        from
    } else {
        sep_at(b, from + 1)
    }
}

/// The component that stands between two separators, if any does.
pub open spec fn piece_span(piece: Seq<u8>, start: int) -> Seq<Span> {
    if piece.len() == 0 || piece == seq![46u8] {
        Seq::empty()
    } else {
        seq![
            Span {
                part: if piece == seq![46u8, 46u8] {
                    Part::Up
                } else {
                    Part::Name(piece)
                },
                start,
                end: start + piece.len(),
            },
        ]
    }
}

/// The components between the separators, from position `from` on.
pub open spec fn spans_from(b: Seq<u8>, from: int) -> Seq<Span>
    decreases b.len() + 1 - from,
    via spans_from_decreases
{
    if from < 0 || from >= b.len() {
        Seq::empty()
    } else {
        let k = sep_at(b, from);
        piece_span(b.subrange(from, k), from) + spans_from(b, k + 1)
    }
}

#[via_fn]
proof fn spans_from_decreases(b: Seq<u8>, from: int) {
    if 0 <= from < b.len() {
        lemma_sep_at(b, from);
    }
}

/// The component that depends on how the path begins: the root, or a `.`.
pub open spec fn lead_span(b: Seq<u8>) -> Seq<Span> {
    if b.len() > 0 && b[0] == 47 {
        seq![Span { part: Part::Root, start: 0, end: 1 }]
    } else if b.subrange(0, sep_at(b, 0)) == seq![46u8] {
        seq![Span { part: Part::Here, start: 0, end: 1 }]
    } else {
        Seq::empty()
    }
}

/// The components of a path, with their places.
pub open spec fn spans(b: Seq<u8>) -> Seq<Span> {
    lead_span(b) + spans_from(b, 0)
}

/// The components of a path.
pub open spec fn parts(b: Seq<u8>) -> Seq<Part> {
    spans(b).map_values(|s: Span| s.part)
}

/// Whether two paths have the same components.
pub open spec fn same_path(a: Seq<u8>, b: Seq<u8>) -> bool {
    parts(a) == parts(b)
}

/// The path without its last component; nothing for the root and for the empty
/// path.
pub open spec fn parent_of(b: Seq<u8>) -> Option<Seq<u8>> {
    let s = spans(b);
    if s.len() == 0 || s.last().part is Root {
        None
    } else if s.len() == 1 {
        Some(Seq::empty())
    } else {
        Some(b.take(s[s.len() - 2].end))
    }
}

/// The last component, if it is a name.
pub open spec fn file_name_of(b: Seq<u8>) -> Option<Seq<u8>> {
    let s = spans(b);
    if s.len() == 0 {
        None
    } else {
        match s.last().part {
            Part::Name(n) => Some(n),
            _ => None,
        }
    }
}

/// The path `b` as seen from the directory `a`.
pub open spec fn joined(a: Seq<u8>, b: Seq<u8>) -> Seq<u8> {
    if b.len() > 0 && b[0] == 47 {
        b
    } else if a.len() == 0 || a.last() == 47 {
        a + b
    } else {
        a.push(47) + b
    }
}

/// What is left of a path below a directory, if it lies there.
pub open spec fn below(b: Seq<u8>, root: Seq<u8>) -> Option<Seq<u8>> {
    let s = spans(b);
    let n = parts(root).len() as int;
    if n <= s.len() && parts(b).take(n) == parts(root) {
        if n == s.len() {
            Some(Seq::empty())
        } else {
            Some(b.subrange(s[n].start, s.last().end))
        }
    } else {
        None
    }
}

/// A path as text, for display.
pub open spec fn path_text(b: Seq<u8>) -> Seq<char> {
    utf8_lossy(b)
}

/// What a path is called in a listing: its file name, or all of it if it has
/// none.
pub open spec fn short_name(b: Seq<u8>) -> Seq<char> {
    match file_name_of(b) {
        Some(n) => utf8_lossy(n),
        None => utf8_lossy(b),
    }
}

// --- The order of paths ---

/// The order of byte strings.
pub open spec fn bytes_before(a: Seq<u8>, b: Seq<u8>) -> bool
    decreases a.len(),
{
    if b.len() == 0 {
        false
    } else if a.len() == 0 {
        true
    } else if a[0] != b[0] {
        a[0] < b[0]
    } else {
        bytes_before(a.drop_first(), b.drop_first())
    }
}

/// The kinds of components, in order.
pub open spec fn part_rank(p: Part) -> int {
    match p {
        Part::Root => 0,
        Part::Here => 1,
        Part::Up => 2,
        Part::Name(_) => 3,
    }
}

/// The order of components.
pub open spec fn part_before(a: Part, b: Part) -> bool {
    match (a, b) {
        (Part::Name(x), Part::Name(y)) => bytes_before(x, y),
        _ => part_rank(a) < part_rank(b),
    }
}

/// The order of sequences of components.
pub open spec fn parts_before(a: Seq<Part>, b: Seq<Part>) -> bool
    decreases a.len(),
{
    if b.len() == 0 {
        false
    } else if a.len() == 0 {
        true
    } else if a[0] != b[0] {
        part_before(a[0], b[0])
    } else {
        parts_before(a.drop_first(), b.drop_first())
    }
}

/// The order of paths.
pub open spec fn path_before(a: Seq<u8>, b: Seq<u8>) -> bool {
    parts_before(parts(a), parts(b))
}

// --- Facts about the order ---

/// The order of byte strings is a strict total order.
pub proof fn bytes_order_total(a: Seq<u8>, b: Seq<u8>)
    ensures
        !bytes_before(a, a),
        bytes_before(a, b) || bytes_before(b, a) || a == b,
        !(bytes_before(a, b) && bytes_before(b, a)),
    decreases a.len(),
{
    if a.len() > 0 {
        if b.len() > 0 {
            bytes_order_total(a.drop_first(), b.drop_first());
            if a[0] == b[0] && a.drop_first() == b.drop_first() {
                assert(a == seq![a[0]] + a.drop_first());
                assert(b == seq![b[0]] + b.drop_first());
            }
        } else {
            bytes_order_total(a.drop_first(), b);
        }
    } else if b.len() == 0 {
        assert(a == b);
    }
}

/// The order of byte strings is transitive.
pub proof fn bytes_order_transitive(a: Seq<u8>, b: Seq<u8>, c: Seq<u8>)
    requires
        bytes_before(a, b),
        bytes_before(b, c),
    ensures
        bytes_before(a, c),
    decreases a.len(),
{
    if a.len() > 0 && a[0] == b[0] && b[0] == c[0] {
        bytes_order_transitive(a.drop_first(), b.drop_first(), c.drop_first());
    }
}

proof fn lemma_part_order_total(a: Part, b: Part)
    ensures
        !part_before(a, a),
        part_before(a, b) || part_before(b, a) || a == b,
        !(part_before(a, b) && part_before(b, a)),
{
    match (a, b) {
        (Part::Name(x), Part::Name(y)) => {
            bytes_order_total(x, y);
        },
        (Part::Name(x), _) => {
            bytes_order_total(x, x);
        },
        _ => {},
    }
}

proof fn lemma_part_order_transitive(a: Part, b: Part, c: Part)
    requires
        part_before(a, b),
        part_before(b, c),
    ensures
        part_before(a, c),
{
    if let (Part::Name(x), Part::Name(y)) = (a, b) {
        if let Part::Name(z) = c {
            bytes_order_transitive(x, y, z);
        }
    }
}

proof fn lemma_parts_order_total(a: Seq<Part>, b: Seq<Part>)
    ensures
        !parts_before(a, a),
        parts_before(a, b) || parts_before(b, a) || a == b,
        !(parts_before(a, b) && parts_before(b, a)),
    decreases a.len(),
{
    if a.len() > 0 {
        if b.len() > 0 {
            lemma_part_order_total(a[0], b[0]);
            lemma_parts_order_total(a.drop_first(), b.drop_first());
            if a[0] == b[0] && a.drop_first() == b.drop_first() {
                assert(a == seq![a[0]] + a.drop_first());
                assert(b == seq![b[0]] + b.drop_first());
            }
        } else {
            lemma_parts_order_total(a.drop_first(), b);
        }
    } else if b.len() == 0 {
        assert(a == b);
    }
}

proof fn lemma_parts_order_transitive(a: Seq<Part>, b: Seq<Part>, c: Seq<Part>)
    requires
        parts_before(a, b),
        parts_before(b, c),
    ensures
        parts_before(a, c),
    decreases a.len(),
{
    if a.len() > 0 {
        lemma_part_order_total(a[0], b[0]);
        lemma_part_order_total(b[0], c[0]);
        lemma_part_order_total(a[0], c[0]);
        if a[0] == b[0] && b[0] == c[0] {
            lemma_parts_order_transitive(a.drop_first(), b.drop_first(), c.drop_first());
        } else if a[0] != b[0] && b[0] != c[0] {
            lemma_part_order_transitive(a[0], b[0], c[0]);
        }
    }
}

/// Of two paths one comes first, unless they are the same path.
pub proof fn path_order_total(a: Seq<u8>, b: Seq<u8>)
    ensures
        !path_before(a, a),
        path_before(a, b) || path_before(b, a) || same_path(a, b),
        !(path_before(a, b) && path_before(b, a)),
{
    lemma_parts_order_total(parts(a), parts(b));
}

/// The order of paths is transitive.
pub proof fn path_order_transitive(a: Seq<u8>, b: Seq<u8>, c: Seq<u8>)
    requires
        path_before(a, b),
        path_before(b, c),
    ensures
        path_before(a, c),
{
    lemma_parts_order_transitive(parts(a), parts(b), parts(c));
}

// --- Facts about components ---

proof fn lemma_sep_at(b: Seq<u8>, from: int)
    requires
        0 <= from <= b.len(),
    ensures
        from <= sep_at(b, from) <= b.len(),
        sep_at(b, from) < b.len() ==> b[sep_at(b, from)] == 47,
        forall|k: int| from <= k < sep_at(b, from) ==> b[k] != 47,
    decreases b.len() - from,
{
    if from < b.len() && b[from] != 47 {
        lemma_sep_at(b, from + 1);
    }
}

/// The first separator is where one is, if none comes before it.
proof fn lemma_sep_at_is(b: Seq<u8>, from: int, k: int)
    requires
        0 <= from <= k <= b.len(),
        k < b.len() ==> b[k] == 47,
        forall|i: int| from <= i < k ==> b[i] != 47,
    ensures
        sep_at(b, from) == k,
{
    lemma_sep_at(b, from);
    let s = sep_at(b, from);
    if s < k {
        assert(b[s] != 47);
    }
}

/// Cutting a path at a separator cuts its components there.
proof fn lemma_spans_cut(b: Seq<u8>, from: int, e: int)
    requires
        0 <= from <= e <= b.len(),
        e < b.len() ==> b[e] == 47,
    ensures
        spans_from(b, from) == spans_from(b.take(e), from) + spans_from(b, e + 1),
    decreases e - from,
{
    let t = b.take(e);
    if from == e {
        if e < b.len() {
            lemma_sep_at_is(b, e, e);
            assert(b.subrange(e, e) =~= Seq::<u8>::empty());
            assert(spans_from(b, from) =~= spans_from(b, e + 1));
        }
        assert(spans_from(t, from) + spans_from(b, e + 1) =~= spans_from(b, e + 1));
    } else {
        lemma_sep_at(b, from);
        let k = sep_at(b, from);
        assert(k <= e) by {
            if k > e {
                assert(b[e] != 47);
            }
        }
        lemma_sep_at_is(t, from, k);
        assert(t.subrange(from, k) =~= b.subrange(from, k));
        let piece = piece_span(b.subrange(from, k), from);
        if k < e {
            lemma_spans_cut(b, k + 1, e);
            assert(piece + (spans_from(t, k + 1) + spans_from(b, e + 1)) =~= (piece + spans_from(
                t,
                k + 1,
            )) + spans_from(b, e + 1));
        } else {
            assert(spans_from(t, from) =~= piece + Seq::<Span>::empty());
            assert(piece + Seq::<Span>::empty() =~= piece);
        }
    }
}

/// Each component ends before a separator or at the end, and the components
/// after it are those that begin behind that separator.
proof fn lemma_span_places(b: Seq<u8>, from: int, i: int)
    requires
        0 <= from,
        0 <= i < spans_from(b, from).len(),
    ensures
        ({
            let s = spans_from(b, from)[i];
            &&& from <= s.start < s.end <= b.len()
            &&& s.end < b.len() ==> b[s.end] == 47
            &&& spans_from(b, s.end + 1) == spans_from(b, from).skip(i + 1)
            &&& !(s.part is Root)
            &&& !(s.part is Here)
        }),
    decreases b.len() + 1 - from,
{
    lemma_sep_at(b, from);
    let k = sep_at(b, from);
    let piece = piece_span(b.subrange(from, k), from);
    let rest = spans_from(b, k + 1);
    if i < piece.len() {
        assert((piece + rest).skip(1) =~= rest);
    } else {
        lemma_span_places(b, k + 1, i - piece.len());
        assert((piece + rest).skip(i + 1) =~= rest.skip(i - piece.len() + 1));
    }
}

/// Cutting a path with two or more components behind its start at the end of the
/// last but one drops the last.
#[verifier::rlimit(40)]
proof fn lemma_cut_long(b: Seq<u8>)
    requires
        spans_from(b, 0).len() >= 2,
    ensures
        ({
            let s = spans(b);
            &&& s.len() >= 2
            &&& 0 <= s[s.len() - 2].end <= b.len()
            &&& spans(b.take(s[s.len() - 2].end)) == s.drop_last()
        }),
{
    let s = spans(b);
    let body = spans_from(b, 0);
    let e = s[s.len() - 2].end;
    let p = b.take(e);
    assert(s[s.len() - 2] == body[body.len() - 2]);
    lemma_sep_at(b, 0);
    lemma_span_places(b, 0, body.len() - 2);
    lemma_spans_cut(b, 0, e);
    let start = spans_from(p, 0);
    assert(body == start + body.skip(body.len() - 1));
    assert(start =~= body.drop_last()) by {
        assert(start.len() == body.len() - 1);
        assert forall|i: int| 0 <= i < body.len() - 1 implies start[i] == body[i] by {
            assert((start + body.skip(body.len() - 1))[i] == body[i]);
        }
    }
    lemma_sep_at(p, 0);
    if sep_at(b, 0) <= e {
        lemma_sep_at_is(p, 0, sep_at(b, 0));
        assert(p.subrange(0, sep_at(b, 0)) =~= b.subrange(0, sep_at(b, 0)));
    } else {
        assert(b[e] != 47);
    }
    assert(lead_span(p) =~= lead_span(b));
    assert(spans(p) =~= s.drop_last());
}

/// Cutting a path with one component behind its start at that start drops the
/// component.
proof fn lemma_cut_short(b: Seq<u8>)
    requires
        lead_span(b).len() == 1,
        spans_from(b, 0).len() == 1,
    ensures
        spans(b).len() == 2,
        spans(b)[0].end == 1,
        b.len() >= 1,
        spans(b.take(1)) == spans(b).drop_last(),
{
    let s = spans(b);
    let p = b.take(1);
    assert(s[0] == lead_span(b)[0]);
    lemma_sep_at(b, 0);
    if b[0] == 47 {
        lemma_sep_at_is(p, 0, 0);
        assert(spans_from(p, 1) =~= Seq::<Span>::empty());
        assert(p.subrange(0, 0) =~= Seq::<u8>::empty());
    } else {
        assert(sep_at(b, 0) == 1) by {
            assert(b.subrange(0, sep_at(b, 0)).len() == 1);
        }
        lemma_sep_at_is(p, 0, 1);
        assert(p.subrange(0, 1) =~= b.subrange(0, 1));
        assert(spans_from(p, 2) =~= Seq::<Span>::empty());
    }
    assert(spans_from(p, 0) =~= Seq::<Span>::empty());
    assert(lead_span(p) =~= lead_span(b));
    assert(spans(p) =~= s.drop_last());
}

/// The parent of a path has all its components but the last.
pub proof fn parent_drops_last_part(b: Seq<u8>)
    ensures
        parent_of(b) is Some <==> parts(b).len() > 0 && !(parts(b).last() is Root),
        parent_of(b) matches Some(p) ==> parts(p) == parts(b).drop_last(),
{
    let s = spans(b);
    if parent_of(b) is Some {
        let p = parent_of(b)->0;
        if s.len() == 1 {
            assert(p.subrange(0, 0).len() == 0);
            assert(spans(p) =~= Seq::<Span>::empty());
        } else if spans_from(b, 0).len() >= 2 {
            lemma_cut_long(b);
        } else {
            lemma_cut_short(b);
        }
        assert(parts(p) =~= parts(b).drop_last());
    }
}

/// Whether a byte string can be the name of a file in a directory.
pub open spec fn is_plain_name(n: Seq<u8>) -> bool {
    &&& n.len() > 0
    &&& n != seq![46u8]
    &&& n != seq![46u8, 46u8]
    &&& forall|i: int| 0 <= i < n.len() ==> n[i] != 47
}

/// Joining a name to a directory adds one component, and the parent of the
/// result is the directory again.
#[verifier::rlimit(40)]
pub proof fn joined_name_is_child(dir: Seq<u8>, name: Seq<u8>)
    requires
        is_plain_name(name),
    ensures
        parts(joined(dir, name)) == parts(dir).push(Part::Name(name)),
        file_name_of(joined(dir, name)) == Some(name),
        spans(joined(dir, name)).last().start == joined(dir, name).len() - name.len(),
        spans(joined(dir, name)).last().end == joined(dir, name).len(),
        parent_of(joined(dir, name)) is Some,
        same_path(parent_of(joined(dir, name))->0, dir),
{
    let j = joined(dir, name);
    let base = j.len() - name.len();
    assert(j.skip(base) =~= name);
    let body = spans_from(j, base);
    assert forall|i: int| base <= i < j.len() implies j[i] != 47 by {
        assert(j[i] == name[i - base]);
    }
    lemma_sep_at_is(j, base, j.len() as int);
    assert(j.subrange(base, j.len() as int) =~= name);
    assert(spans_from(j, j.len() as int + 1) =~= Seq::<Span>::empty());
    let last = Span { part: Part::Name(name), start: base, end: j.len() as int };
    assert(body =~= seq![last]);
    if dir.len() == 0 {
        assert(j =~= name);
        assert(base == 0);
        lemma_sep_at_is(dir, 0, 0);
        assert(dir.subrange(0, 0).len() == 0);
        assert(spans(dir) =~= Seq::<Span>::empty());
        assert(spans(j) =~= seq![last]);
    } else {
        let e = base - 1;
        assert(j[e] == 47);
        lemma_spans_cut(j, 0, e);
        if dir.last() == 47 {
            assert(j.take(e) =~= dir.take(e));
            lemma_spans_cut(dir, 0, e);
            assert(spans_from(dir, e + 1) =~= Seq::<Span>::empty());
            assert(spans_from(dir.take(e), 0) + Seq::<Span>::empty() =~= spans_from(
                dir.take(e),
                0,
            ));
        } else {
            assert(j.take(e) =~= dir);
        }
        assert(spans_from(j, 0) =~= spans_from(dir, 0).push(last));
        lemma_sep_at(dir, 0);
        let k = sep_at(dir, 0);
        assert forall|i: int| 0 <= i < k implies j[i] != 47 by {
            assert(j[i] == dir[i]);
        }
        assert(k < dir.len() ==> j[k] == dir[k]);
        lemma_sep_at_is(j, 0, k);
        assert(j.subrange(0, k) =~= dir.subrange(0, k));
        assert(j[0] == dir[0]);
        assert(lead_span(j) =~= lead_span(dir));
        assert(spans(j) =~= spans(dir).push(last));
    }
    assert(parts(j) =~= parts(dir).push(Part::Name(name)));
    parent_drops_last_part(j);
    assert(parts(j).drop_last() =~= parts(dir));
}

/// One byte string comes before another exactly if it is shorter and the other starts
/// with it, or if its byte is the smaller one where they first differ.
pub proof fn bytes_ordered_by_first_difference(a: Seq<u8>, b: Seq<u8>)
    ensures
        bytes_before(a, b) <==> exists|k: int|
            {
                &&& 0 <= k <= a.len()
                &&& k < b.len()
                &&& #[trigger] a.take(k) == b.take(k)
                &&& k == a.len() || a[k] < b[k]
            },
    decreases a.len(),
{
    if a.len() > 0 && b.len() > 0 && a[0] == b[0] {
        let x = a.drop_first();
        let y = b.drop_first();
        bytes_ordered_by_first_difference(x, y);
        if bytes_before(a, b) {
            let k = choose|k: int|
                0 <= k <= x.len() && k < y.len() && #[trigger] x.take(k) == y.take(k) && (k
                    == x.len() || x[k] < y[k]);
            assert forall|i: int| 0 <= i < k + 1 implies a[i] == b[i] by {
                if i > 0 {
                    assert(x.take(k)[i - 1] == y.take(k)[i - 1]);
                }
            }
            assert(a.take(k + 1) =~= b.take(k + 1));
        }
        if exists|k: int|
            0 <= k <= a.len() && k < b.len() && #[trigger] a.take(k) == b.take(k) && (k == a.len()
                || a[k] < b[k]) {
            let k = choose|k: int|
                0 <= k <= a.len() && k < b.len() && #[trigger] a.take(k) == b.take(k) && (k
                    == a.len() || a[k] < b[k]);
            assert(k > 0);
            assert forall|i: int| 0 <= i < k - 1 implies x[i] == y[i] by {
                assert(a.take(k)[i + 1] == b.take(k)[i + 1]);
            }
            assert(x.take(k - 1) =~= y.take(k - 1));
        }
    } else if a.len() == 0 || b.len() == 0 {
        assert(a.take(0) =~= b.take(0));
    } else {
        assert(a.take(0) =~= b.take(0));
        if exists|k: int|
            0 <= k <= a.len() && k < b.len() && #[trigger] a.take(k) == b.take(k) && (k == a.len()
                || a[k] < b[k]) {
            let k = choose|k: int|
                0 <= k <= a.len() && k < b.len() && #[trigger] a.take(k) == b.take(k) && (k
                    == a.len() || a[k] < b[k]);
            if k > 0 {
                assert(a.take(k)[0] == b.take(k)[0]);
            }
        }
    }
}

#[verifier::rlimit(40)]
proof fn lemma_piece_behind(a: Seq<u8>, piece: Seq<u8>)
    requires
        a.len() > 0,
        forall|i: int| 0 <= i < piece.len() ==> piece[i] != 47,
    ensures
        spans(a.push(47) + piece) == spans(a) + piece_span(piece, 1 + a.len() as int),
{
    let j = a.push(47) + piece;
    let e = a.len() as int;
    let base = e + 1;
    assert forall|i: int| base <= i < j.len() implies j[i] != 47 by {
        assert(j[i] == piece[i - base]);
    }
    lemma_sep_at_is(j, base, j.len() as int);
    assert(j.subrange(base, j.len() as int) =~= piece);
    assert(spans_from(j, j.len() as int + 1) =~= Seq::<Span>::empty());
    if piece.len() > 0 {
        assert(spans_from(j, base) =~= piece_span(piece, base));
    } else {
        assert(spans_from(j, base) =~= Seq::<Span>::empty());
    }
    assert(j[e] == 47);
    lemma_spans_cut(j, 0, e);
    assert(j.take(e) =~= a);
    lemma_sep_at(a, 0);
    let k = sep_at(a, 0);
    assert forall|i: int| 0 <= i < k implies j[i] != 47 by {
        assert(j[i] == a[i]);
    }
    assert(k < a.len() ==> j[k] == a[k]);
    lemma_sep_at_is(j, 0, k);
    assert(j.subrange(0, k) =~= a.subrange(0, k));
    assert(j[0] == a[0]);
    assert(lead_span(j) =~= lead_span(a));
    assert(spans(j) =~= spans(a) + piece_span(piece, base));
}

/// How a path is spelled does not matter: a slash at its end, a second slash or a dot
/// between slashes add nothing; two dots are a component of their own.
pub proof fn spelling_does_not_matter(a: Seq<u8>)
    requires
        a.len() > 0,
    ensures
        same_path(a.push(47), a),
        same_path(a.push(47).push(47), a),
        same_path(a.push(47).push(46), a),
        parts(a.push(47).push(46).push(46)) == parts(a).push(Part::Up),
        !same_path(a.push(47).push(46).push(46), a),
{
    let none = Seq::<u8>::empty();
    lemma_piece_behind(a, none);
    assert(a.push(47) + none =~= a.push(47));
    assert(spans(a) + Seq::<Span>::empty() =~= spans(a));
    lemma_piece_behind(a.push(47), none);
    assert(a.push(47).push(47) + none =~= a.push(47).push(47));
    assert(spans(a.push(47)) + Seq::<Span>::empty() =~= spans(a.push(47)));
    lemma_piece_behind(a, seq![46u8]);
    assert(a.push(47) + seq![46u8] =~= a.push(47).push(46));
    lemma_piece_behind(a, seq![46u8, 46u8]);
    let up = a.push(47).push(46).push(46);
    assert(a.push(47) + seq![46u8, 46u8] =~= up);
    assert(seq![46u8, 46u8].len() == 2 && seq![46u8].len() == 1);
    assert(parts(up) =~= parts(a).push(Part::Up));
    assert(parts(up).len() == parts(a).len() + 1);
}

/// A path lies below another exactly if its components start with those of the other.
/// What is left of a name in a directory is the name; of the directory itself, nothing.
pub proof fn below_drops_the_root(root: Seq<u8>, b: Seq<u8>, name: Seq<u8>)
    ensures
        below(b, root) is Some <==> parts(root).is_prefix_of(parts(b)),
        below(root, root) == Some(Seq::<u8>::empty()),
        is_plain_name(name) ==> below(joined(root, name), root) == Some(name),
{
    let n = parts(root).len() as int;
    assert(parts(b).len() == spans(b).len());
    assert(parts(root).len() == spans(root).len());
    assert(n <= parts(b).len() ==> parts(b).subrange(0, n) =~= parts(b).take(n));
    assert(parts(root).take(n) =~= parts(root));
    if is_plain_name(name) {
        joined_name_is_child(root, name);
        let j = joined(root, name);
        assert(parts(j).len() == spans(j).len());
        assert(parts(j).take(n) =~= parts(root));
        assert(j.subrange(j.len() - name.len(), j.len() as int) =~= name);
    }
}

proof fn lemma_order_behind(p: Seq<Part>, x: Part, y: Part)
    requires
        x != y,
    ensures
        parts_before(p.push(x), p.push(y)) == part_before(x, y),
        parts_before(p, p.push(x)),
    decreases p.len(),
{
    let a = p.push(x);
    let b = p.push(y);
    if p.len() > 0 {
        assert(a.drop_first() =~= p.drop_first().push(x));
        assert(b.drop_first() =~= p.drop_first().push(y));
        lemma_order_behind(p.drop_first(), x, y);
    }
}

/// In a directory paths are ordered by their names, and the directory comes before them.
pub proof fn children_are_ordered_by_name(dir: Seq<u8>, a: Seq<u8>, b: Seq<u8>)
    requires
        is_plain_name(a),
        is_plain_name(b),
        a != b,
    ensures
        path_before(joined(dir, a), joined(dir, b)) <==> bytes_before(a, b),
        path_before(dir, joined(dir, a)),
        !same_path(joined(dir, a), joined(dir, b)),
{
    joined_name_is_child(dir, a);
    joined_name_is_child(dir, b);
    lemma_order_behind(parts(dir), Part::Name(a), Part::Name(b));
    assert(parts(joined(dir, a)).last() == Part::Name(a));
    assert(parts(joined(dir, b)).last() == Part::Name(b));
}

/// Joining puts exactly one slash between a directory and what is in it, whether the
/// directory ends in one or not; to nothing it adds none.
pub proof fn joining_adds_one_slash(a: Seq<u8>, b: Seq<u8>)
    requires
        !(b.len() > 0 && b[0] == 47),
    ensures
        joined(Seq::empty(), b) == b,
        a.len() > 0 && a.last() != 47 ==> joined(a, b) == a.push(47) + b && joined(a.push(47), b)
            == joined(a, b),
        a.len() > 0 && a.last() == 47 ==> joined(a, b) == a + b,
{
    assert(Seq::<u8>::empty() + b =~= b);
}

/// A path that starts at the root replaces the one that it is joined to.
pub proof fn absolute_path_replaces(a: Seq<u8>, b: Seq<u8>)
    requires
        b.len() > 0,
        b[0] == 47,
    ensures
        joined(a, b) == b,
        parts(b).len() > 0 && parts(b)[0] is Root,
{
    assert(spans(b)[0].part is Root);
}

// --- Paths as values ---

/// A path.
#[derive(Debug)]
pub struct BootPath {
    pub bytes: Vec<u8>,
}

impl View for BootPath {
    type V = Seq<u8>;

    open spec fn view(&self) -> Seq<u8> {
        self.bytes@
    }
}

impl Clone for BootPath {
    fn clone(&self) -> (r: Self)
        ensures
            r@ == self@,
    {
        BootPath { bytes: copy_bytes(self.bytes.as_slice()) }
    }
}

impl PartialEq for BootPath {
    fn eq(&self, other: &Self) -> (r: bool) {
        self.is_same(other)
    }
}

impl Eq for BootPath {

}

impl PartialEqSpecImpl for BootPath {
    open spec fn obeys_eq_spec() -> bool {
        true
    }

    open spec fn eq_spec(&self, other: &Self) -> bool {
        same_path(self@, other@)
    }
}

/// The kind of a component.
#[derive(Clone, Copy, PartialEq, Eq, Structural)]
enum PartKind {
    Root,
    Here,
    Up,
    Name,
}

/// A component and its place in the path.
#[derive(Clone, Copy)]
struct PathSpan {
    kind: PartKind,
    start: usize,
    end: usize,
}

spec fn span_in(b: Seq<u8>, s: PathSpan) -> Span {
    Span {
        part: match s.kind {
            PartKind::Root => Part::Root,
            PartKind::Here => Part::Here,
            PartKind::Up => Part::Up,
            PartKind::Name => Part::Name(b.subrange(s.start as int, s.end as int)),
        },
        start: s.start as int,
        end: s.end as int,
    }
}

spec fn spans_in(b: Seq<u8>, v: Seq<PathSpan>) -> Seq<Span> {
    v.map_values(|s: PathSpan| span_in(b, s))
}

spec fn spans_fit(b: Seq<u8>, v: Seq<PathSpan>) -> bool {
    forall|i: int| 0 <= i < v.len() ==> #[trigger] v[i].start <= v[i].end <= b.len()
}

fn find_sep(b: &[u8], from: usize) -> (r: usize)
    requires
        from <= b@.len(),
    ensures
        r == sep_at(b@, from as int),
        from <= r <= b@.len(),
{
    let mut k: usize = from;
    while k < b.len() && b[k] != 47
        invariant
            from <= k <= b@.len(),
            sep_at(b@, from as int) == sep_at(b@, k as int),
        decreases b@.len() - k,
    {
        k = k + 1;
    }
    k
}

fn split_path(b: &[u8]) -> (r: Vec<PathSpan>)
    ensures
        spans_in(b@, r@) == spans(b@),
        spans_fit(b@, r@),
{
    let mut v: Vec<PathSpan> = Vec::new();
    let first = find_sep(b, 0);
    if b.len() > 0 && b[0] == 47 {
        v.push(PathSpan { kind: PartKind::Root, start: 0, end: 1 });
    } else if first == 1 && b[0] == 46 {
        assert(b@.subrange(0, 1) =~= seq![46u8]);
        v.push(PathSpan { kind: PartKind::Here, start: 0, end: 1 });
    } else {
        assert(b@.subrange(0, first as int) != seq![46u8]) by {
            if first == 1 {
                assert(b@.subrange(0, 1)[0] == b@[0]);
            } else {
                assert(b@.subrange(0, first as int).len() == first);
            }
        }
    }
    assert(spans_in(b@, v@) =~= lead_span(b@));
    let mut from: usize = 0;
    let mut done: bool = false;
    while !done && from < b.len()
        invariant
            from <= b@.len(),
            spans_in(b@, v@) + spans_from(b@, if done { b@.len() as int + 1 } else { from as int })
                == spans(b@),
            spans_fit(b@, v@),
        decreases b@.len() - from + if done { 0int } else { 1int },
    {
        let k = find_sep(b, from);
        let ghost piece = b@.subrange(from as int, k as int);
        let ghost before = spans_in(b@, v@);
        let ghost rest = spans_from(b@, k + 1);
        if k == from || (k - from == 1 && b[from] == 46) {
            assert(k - from == 1 ==> piece =~= seq![46u8]);
            assert(piece_span(piece, from as int) =~= Seq::<Span>::empty());
            assert(before + (Seq::<Span>::empty() + rest) =~= before + rest);
        } else {
            assert(piece != seq![46u8]) by {
                if k - from == 1 {
                    assert(piece[0] == b@[from as int]);
                } else {
                    assert(piece.len() == k - from);
                }
            }
            if k - from == 2 && b[from] == 46 && b[from + 1] == 46 {
                assert(piece =~= seq![46u8, 46u8]);
                v.push(PathSpan { kind: PartKind::Up, start: from, end: k });
            } else {
                assert(piece != seq![46u8, 46u8]) by {
                    if k - from == 2 {
                        assert(piece[0] == b@[from as int]);
                        assert(piece[1] == b@[from + 1]);
                    } else {
                        assert(piece.len() == k - from);
                    }
                }
                v.push(PathSpan { kind: PartKind::Name, start: from, end: k });
            }
            assert(spans_in(b@, v@) =~= before + piece_span(piece, from as int));
            assert(before + (piece_span(piece, from as int) + rest) =~= spans_in(b@, v@) + rest);
        }
        if k < b.len() {
            from = k + 1;
        } else {
            done = true;
        }
    }
    assert(spans_in(b@, v@) + Seq::<Span>::empty() =~= spans_in(b@, v@));
    v
}

fn same_span(a: &[u8], s: PathSpan, b: &[u8], t: PathSpan) -> (r: bool)
    requires
        s.start <= s.end <= a@.len(),
        t.start <= t.end <= b@.len(),
    ensures
        r == (span_in(a@, s).part == span_in(b@, t).part),
{
    if s.kind != t.kind {
        return false;
    }
    match s.kind {
        PartKind::Name => {
            same_bytes(
                vstd::slice::slice_subrange(a, s.start, s.end),
                vstd::slice::slice_subrange(b, t.start, t.end),
            )
        },
        _ => true,
    }
}

/// Whether one byte string comes before another.
pub fn bytes_go_before(a: &[u8], b: &[u8]) -> (r: bool)
    ensures
        r == bytes_before(a@, b@),
{
    let mut i: usize = 0;
    assert(a@.skip(0) =~= a@);
    assert(b@.skip(0) =~= b@);
    while i < a.len() && i < b.len() && a[i] == b[i]
        invariant
            i <= a@.len(),
            i <= b@.len(),
            bytes_before(a@, b@) == bytes_before(a@.skip(i as int), b@.skip(i as int)),
        decreases a@.len() - i,
    {
        assert(a@.skip(i as int).drop_first() =~= a@.skip(i + 1));
        assert(b@.skip(i as int).drop_first() =~= b@.skip(i + 1));
        i = i + 1;
    }
    if i == b.len() {
        false
    } else if i == a.len() {
        true
    } else {
        a[i] < b[i]
    }
}

fn rank(k: PartKind) -> (r: u8)
    ensures
        k is Root ==> r == 0,
        k is Here ==> r == 1,
        k is Up ==> r == 2,
        k is Name ==> r == 3,
{
    match k {
        PartKind::Root => 0,
        PartKind::Here => 1,
        PartKind::Up => 2,
        PartKind::Name => 3,
    }
}

/// Whether the first `n` components of two paths are the same.
fn same_start(a: &[u8], u: &Vec<PathSpan>, b: &[u8], v: &Vec<PathSpan>, n: usize) -> (r: bool)
    requires
        spans_in(a@, u@) == spans(a@),
        spans_in(b@, v@) == spans(b@),
        spans_fit(a@, u@),
        spans_fit(b@, v@),
        n <= u@.len(),
        n <= v@.len(),
    ensures
        r == (parts(a@).take(n as int) == parts(b@).take(n as int)),
{
    let mut i: usize = 0;
    while i < n
        invariant
            i <= n <= u@.len(),
            n <= v@.len(),
            spans_in(a@, u@) == spans(a@),
            spans_in(b@, v@) == spans(b@),
            spans_fit(a@, u@),
            spans_fit(b@, v@),
            forall|k: int| 0 <= k < i ==> parts(a@)[k] == parts(b@)[k],
        decreases n - i,
    {
        assert(parts(a@)[i as int] == span_in(a@, u@[i as int]).part) by {
            assert(spans_in(a@, u@)[i as int] == span_in(a@, u@[i as int]));
        }
        assert(parts(b@)[i as int] == span_in(b@, v@[i as int]).part) by {
            assert(spans_in(b@, v@)[i as int] == span_in(b@, v@[i as int]));
        }
        if !same_span(a, u[i], b, v[i]) {
            assert(parts(a@).take(n as int)[i as int] == parts(a@)[i as int]);
            assert(parts(b@).take(n as int)[i as int] == parts(b@)[i as int]);
            return false;
        }
        i = i + 1;
    }
    assert(spans_in(a@, u@).len() == u@.len());
    assert(spans_in(b@, v@).len() == v@.len());
    assert(parts(a@).take(n as int) =~= parts(b@).take(n as int));
    true
}

impl BootPath {
    /// The path with the given bytes.
    pub fn from_bytes(bytes: &[u8]) -> (r: BootPath)
        ensures
            r@ == bytes@,
    {
        BootPath { bytes: copy_bytes(bytes) }
    }

    /// The path that a text spells.
    pub fn from_text(text: &str) -> (r: BootPath)
        ensures
            r@ == vstd::utf8::encode_utf8(text@),
    {
        BootPath { bytes: copy_bytes(text.as_bytes()) }
    }

    /// Whether two paths have the same components.
    pub fn is_same(&self, other: &BootPath) -> (r: bool)
        ensures
            r == same_path(self@, other@),
    {
        let a = self.bytes.as_slice();
        let b = other.bytes.as_slice();
        let u = split_path(a);
        let v = split_path(b);
        assert(spans_in(a@, u@).len() == u@.len());
        assert(spans_in(b@, v@).len() == v@.len());
        assert(parts(a@).len() == u@.len());
        assert(parts(b@).len() == v@.len());
        if u.len() != v.len() {
            return false;
        }
        assert(parts(a@).take(u@.len() as int) =~= parts(a@));
        assert(parts(b@).take(u@.len() as int) =~= parts(b@));
        same_start(a, &u, b, &v, u.len())
    }

    /// Whether this path comes before another.
    pub fn is_before(&self, other: &BootPath) -> (r: bool)
        ensures
            r == path_before(self@, other@),
    {
        let a = self.bytes.as_slice();
        let b = other.bytes.as_slice();
        let u = split_path(a);
        let v = split_path(b);
        let ghost p = parts(a@);
        let ghost q = parts(b@);
        assert(spans_in(a@, u@).len() == u@.len());
        assert(spans_in(b@, v@).len() == v@.len());
        let mut i: usize = 0;
        assert(p.skip(0) =~= p);
        assert(q.skip(0) =~= q);
        while i < u.len() && i < v.len()
            invariant
                i <= u@.len(),
                i <= v@.len(),
                a@ == self@,
                b@ == other@,
                p == parts(a@),
                q == parts(b@),
                p.len() == u@.len(),
                q.len() == v@.len(),
                spans_in(a@, u@) == spans(a@),
                spans_in(b@, v@) == spans(b@),
                spans_fit(a@, u@),
                spans_fit(b@, v@),
                parts_before(p, q) == parts_before(p.skip(i as int), q.skip(i as int)),
            decreases u@.len() - i,
        {
            let s = u[i];
            let t = v[i];
            assert(p[i as int] == span_in(a@, s).part) by {
                assert(spans_in(a@, u@)[i as int] == span_in(a@, s));
            }
            assert(q[i as int] == span_in(b@, t).part) by {
                assert(spans_in(b@, v@)[i as int] == span_in(b@, t));
            }
            assert(p.skip(i as int).drop_first() =~= p.skip(i + 1));
            assert(q.skip(i as int).drop_first() =~= q.skip(i + 1));
            if !same_span(a, s, b, t) {
                if s.kind == PartKind::Name && t.kind == PartKind::Name {
                    return bytes_go_before(
                        vstd::slice::slice_subrange(a, s.start, s.end),
                        vstd::slice::slice_subrange(b, t.start, t.end),
                    );
                }
                return rank(s.kind) < rank(t.kind);
            }
            i = i + 1;
        }
        i < v.len()
    }

    /// The path without its last component.
    pub fn parent(&self) -> (r: Option<BootPath>)
        ensures
            r is Some <==> parent_of(self@) is Some,
            r matches Some(p) ==> parent_of(self@) == Some(p@),
    {
        let b = self.bytes.as_slice();
        let v = split_path(b);
        assert(spans_in(b@, v@).len() == v@.len());
        if v.len() == 0 {
            return None;
        }
        let last = v[v.len() - 1];
        assert(spans(b@).last() == span_in(b@, last));
        if last.kind == PartKind::Root {
            return None;
        }
        let end: usize = if v.len() == 1 { 0 } else { v[v.len() - 2].end };
        assert(v@.len() > 1 ==> spans(b@)[v@.len() - 2] == span_in(b@, v@[v@.len() - 2]));
        let kept = vstd::slice::slice_subrange(b, 0, end);
        assert(kept@ =~= b@.take(end as int));
        assert(v@.len() == 1 ==> kept@ =~= Seq::<u8>::empty());
        Some(BootPath::from_bytes(kept))
    }

    /// The last component, if it is a name.
    pub fn file_name(&self) -> (r: Option<Vec<u8>>)
        ensures
            r is Some <==> file_name_of(self@) is Some,
            r matches Some(n) ==> file_name_of(self@) == Some(n@),
    {
        let b = self.bytes.as_slice();
        let v = split_path(b);
        assert(spans_in(b@, v@).len() == v@.len());
        if v.len() == 0 {
            return None;
        }
        let last = v[v.len() - 1];
        assert(spans(b@).last() == span_in(b@, last));
        match last.kind {
            PartKind::Name => Some(
                copy_bytes(vstd::slice::slice_subrange(b, last.start, last.end)),
            ),
            _ => None,
        }
    }

    /// The path `name` as seen from this directory.
    pub fn join(&self, name: &[u8]) -> (r: BootPath)
        ensures
            r@ == joined(self@, name@),
    {
        let mut bytes: Vec<u8> = Vec::new();
        if name.len() > 0 && name[0] == 47 {
            push_bytes(&mut bytes, name);
            assert(bytes@ =~= name@);
        } else {
            push_bytes(&mut bytes, self.bytes.as_slice());
            assert(bytes@ =~= self@);
            if bytes.len() > 0 && bytes[bytes.len() - 1] != 47 {
                bytes.push(47);
            }
            push_bytes(&mut bytes, name);
        }
        BootPath { bytes }
    }

    /// What is left of this path below a directory, if it lies there.
    pub fn strip_prefix(&self, root: &BootPath) -> (r: Option<BootPath>)
        ensures
            r is Some <==> below(self@, root@) is Some,
            r matches Some(p) ==> below(self@, root@) == Some(p@),
    {
        let a = self.bytes.as_slice();
        let b = root.bytes.as_slice();
        let u = split_path(a);
        let v = split_path(b);
        let n = v.len();
        assert(spans_in(a@, u@).len() == u@.len());
        assert(spans_in(b@, v@).len() == v@.len());
        assert(parts(b@).take(n as int) =~= parts(b@));
        if n > u.len() || !same_start(a, &u, b, &v, n) {
            return None;
        }
        if n == u.len() {
            return Some(BootPath { bytes: Vec::new() });
        }
        let first = u[n];
        let last = u[u.len() - 1];
        assert(spans(a@)[n as int] == span_in(a@, first));
        assert(spans(a@).last() == span_in(a@, last));
        proof {
            lemma_spans_in_order(a@, n as int);
        }
        Some(BootPath::from_bytes(vstd::slice::slice_subrange(a, first.start, last.end)))
    }

    /// The path as text.
    pub fn to_text(&self) -> (r: String)
        ensures
            r@ == path_text(self@),
            vstd::utf8::valid_utf8(self@) ==> r@ == vstd::utf8::decode_utf8(self@),
    {
        lossy_text(self.bytes.as_slice())
    }

    /// What the path is called in a listing.
    pub fn listing_name(&self) -> (r: String)
        ensures
            r@ == short_name(self@),
    {
        match self.file_name() {
            Some(n) => lossy_text(n.as_slice()),
            None => lossy_text(self.bytes.as_slice()),
        }
    }
}

/// No component begins behind the end of the last one.
proof fn lemma_spans_in_order(b: Seq<u8>, i: int)
    requires
        0 <= i < spans(b).len(),
    ensures
        spans(b)[i].start <= spans(b).last().end,
{
    let lead = lead_span(b);
    let body = spans_from(b, 0);
    if body.len() > 0 {
        if i >= lead.len() {
            lemma_body_in_order(b, 0, i - lead.len());
            assert(spans(b)[i] == body[i - lead.len()]);
        } else {
            lemma_span_places(b, 0, body.len() - 1);
        }
        assert(spans(b).last() == body.last());
    }
}

proof fn lemma_body_in_order(b: Seq<u8>, from: int, i: int)
    requires
        0 <= from,
        0 <= i < spans_from(b, from).len(),
    ensures
        spans_from(b, from)[i].start <= spans_from(b, from).last().end,
    decreases b.len() + 1 - from,
{
    let body = spans_from(b, from);
    lemma_span_places(b, from, i);
    if i + 1 < body.len() {
        let s = body[i];
        let rest = spans_from(b, s.end + 1);
        assert(rest.len() > 0);
        assert(rest.last() == body.last());
        lemma_span_places(b, s.end + 1, rest.len() - 1);
    }
}

} // verus!
