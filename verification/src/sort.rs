//! A stable sort.

use vstd::prelude::*;

verus! {

/// A type whose values have an order. Two values of which neither goes before
/// the other may still differ.
pub trait Ranked: View + Sized {
    /// Which of two values has to stand before the other.
    spec fn order() -> spec_fn(Self::V, Self::V) -> bool;

    fn goes_before(&self, other: &Self) -> (r: bool)
        ensures
            r == Self::order()(self@, other@),
    ;
}

/// `s` with `x` added behind everything that it does not go before.
pub open spec fn inserted<V>(s: Seq<V>, x: V, before: spec_fn(V, V) -> bool) -> Seq<V>
    decreases s.len(),
{
    if s.len() == 0 || !before(x, s.last()) {
        s.push(x)
    } else {
        inserted(s.drop_last(), x, before).push(s.last())
    }
}

/// The elements of `s` in order; those of which neither goes before the other
/// keep the order in which they came.
pub open spec fn sorted<V>(s: Seq<V>, before: spec_fn(V, V) -> bool) -> Seq<V>
    decreases s.len(),
{
    if s.len() == 0 {
        s
    } else {
        inserted(sorted(s.drop_last(), before), s.last(), before)
    }
}

/// Whether no element goes before an earlier one.
pub open spec fn in_order<V>(s: Seq<V>, before: spec_fn(V, V) -> bool) -> bool {
    forall|i: int, j: int| #![trigger s[i], s[j]] 0 <= i < j < s.len() ==> !before(s[j], s[i])
}

/// Whether `before` ranks the values: of two at most one goes before the other,
/// and what lies between two that are apart is apart from one of them.
pub open spec fn ranks<V>(before: spec_fn(V, V) -> bool) -> bool {
    &&& forall|a: V, b: V| #[trigger] before(a, b) ==> !before(b, a)
    &&& forall|a: V, b: V, c: V|
        #![trigger before(a, b), before(b, c)]
        before(a, c) ==> before(a, b) || before(b, c)
}

proof fn lemma_inserted<V>(s: Seq<V>, x: V, before: spec_fn(V, V) -> bool)
    requires
        ranks(before),
    ensures
        inserted(s, x, before).to_multiset() == s.to_multiset().insert(x),
        inserted(s, x, before).len() == s.len() + 1,
        in_order(s, before) ==> in_order(inserted(s, x, before), before),
        forall|i: int|
            0 <= i <= s.len() ==> #[trigger] inserted(s, x, before)[i] == x || s.contains(
                inserted(s, x, before)[i],
            ),
    decreases s.len(),
{
    broadcast use vstd::seq_lib::group_to_multiset_ensures;

    let r = inserted(s, x, before);
    if s.len() == 0 || !before(x, s.last()) {
        if in_order(s, before) {
            assert forall|i: int, j: int|
                #![trigger r[i], r[j]]
                0 <= i < j < r.len() implies !before(r[j], r[i]) by {
                if j == s.len() {
                    assert(!before(x, s.last()));
                    if i < s.len() - 1 {
                        assert(!before(s[s.len() - 1], s[i]));
                    }
                } else {
                    assert(!before(s[j], s[i]));
                }
            }
        }
        assert forall|i: int| 0 <= i <= s.len() implies #[trigger] r[i] == x || s.contains(
            r[i],
        ) by {
            if i < s.len() {
                assert(r[i] == s[i]);
            }
        }
    } else {
        let init = s.drop_last();
        let last = s.last();
        lemma_inserted(init, x, before);
        let q = inserted(init, x, before);
        assert(s =~= init.push(last));
        assert(r.to_multiset() =~= s.to_multiset().insert(x));
        if in_order(s, before) {
            assert forall|i: int, j: int|
                #![trigger init[i], init[j]]
                0 <= i < j < init.len() implies !before(init[j], init[i]) by {
                assert(!before(s[j], s[i]));
            }
            assert forall|i: int, j: int|
                #![trigger r[i], r[j]]
                0 <= i < j < r.len() implies !before(r[j], r[i]) by {
                if j == s.len() {
                    assert(r[i] == q[i]);
                    if q[i] == x {
                        assert(before(x, last));
                    } else {
                        let k = choose|k: int| 0 <= k < init.len() && init[k] == q[i];
                        assert(!before(s[s.len() - 1], s[k]));
                    }
                } else {
                    assert(!before(q[j], q[i]));
                }
            }
        }
        assert forall|i: int| 0 <= i <= s.len() implies #[trigger] r[i] == x || s.contains(
            r[i],
        ) by {
            if i == s.len() {
                assert(s[s.len() - 1] == r[i]);
            } else {
                assert(r[i] == q[i]);
                if q[i] != x {
                    let k = choose|k: int| 0 <= k < init.len() && init[k] == q[i];
                    assert(s[k] == r[i]);
                }
            }
        }
    }
}

/// Sorting puts the elements in order, and neither adds nor loses one.
pub proof fn sorted_is_ordered_rearrangement<V>(s: Seq<V>, before: spec_fn(V, V) -> bool)
    requires
        ranks(before),
    ensures
        in_order(sorted(s, before), before),
        sorted(s, before).to_multiset() == s.to_multiset(),
        sorted(s, before).len() == s.len(),
    decreases s.len(),
{
    broadcast use vstd::seq_lib::group_to_multiset_ensures;

    if s.len() > 0 {
        sorted_is_ordered_rearrangement(s.drop_last(), before);
        lemma_inserted(sorted(s.drop_last(), before), s.last(), before);
        assert(s =~= s.drop_last().push(s.last()));
    }
}

/// What is already in order stays as it is.
pub proof fn sorted_keeps_ordered<V>(s: Seq<V>, before: spec_fn(V, V) -> bool)
    requires
        in_order(s, before),
    ensures
        sorted(s, before) == s,
    decreases s.len(),
{
    if s.len() > 0 {
        let init = s.drop_last();
        assert forall|i: int, j: int|
            #![trigger init[i], init[j]]
            0 <= i < j < init.len() implies !before(init[j], init[i]) by {
            assert(!before(s[j], s[i]));
        }
        sorted_keeps_ordered(init, before);
        if init.len() > 0 {
            assert(!before(s[s.len() - 1], s[s.len() - 2]));
        }
        assert(s =~= init.push(s.last()));
    }
}

/// What holds of every element holds of every element after sorting.
pub proof fn sorted_keeps_property<V>(
    s: Seq<V>,
    before: spec_fn(V, V) -> bool,
    p: spec_fn(V) -> bool,
)
    requires
        forall|i: int| 0 <= i < s.len() ==> p(#[trigger] s[i]),
    ensures
        forall|i: int| 0 <= i < sorted(s, before).len() ==> p(#[trigger] sorted(s, before)[i]),
    decreases s.len(),
{
    if s.len() > 0 {
        sorted_keeps_property(s.drop_last(), before, p);
        assert(p(s[s.len() - 1]));
        lemma_inserted_keeps_property(sorted(s.drop_last(), before), s.last(), before, p);
    }
}

proof fn lemma_inserted_keeps_property<V>(
    s: Seq<V>,
    x: V,
    before: spec_fn(V, V) -> bool,
    p: spec_fn(V) -> bool,
)
    requires
        p(x),
        forall|i: int| 0 <= i < s.len() ==> p(#[trigger] s[i]),
    ensures
        forall|i: int|
            0 <= i < inserted(s, x, before).len() ==> p(#[trigger] inserted(s, x, before)[i]),
    decreases s.len(),
{
    let r = inserted(s, x, before);
    if s.len() > 0 && before(x, s.last()) {
        let init = s.drop_last();
        assert forall|i: int| 0 <= i < init.len() implies p(#[trigger] init[i]) by {
            assert(p(s[i]));
        }
        lemma_inserted_keeps_property(init, x, before, p);
        assert forall|i: int| 0 <= i < r.len() implies p(#[trigger] r[i]) by {
            if i < r.len() - 1 {
                assert(r[i] == inserted(init, x, before)[i]);
            } else {
                assert(p(s[s.len() - 1]));
            }
        }
    }
}

proof fn lemma_inserted_elements<V>(s: Seq<V>, x: V, before: spec_fn(V, V) -> bool, y: V)
    ensures
        inserted(s, x, before).contains(y) <==> (y == x || s.contains(y)),
    decreases s.len(),
{
    let r = inserted(s, x, before);
    if s.len() == 0 || !before(x, s.last()) {
        assert(r[s.len() as int] == x);
        if s.contains(y) {
            let k = choose|k: int| 0 <= k < s.len() && s[k] == y;
            assert(r[k] == y);
        }
        if r.contains(y) {
            let k = choose|k: int| 0 <= k < r.len() && r[k] == y;
            assert(k < s.len() ==> s[k] == y);
        }
    } else {
        let init = s.drop_last();
        let q = inserted(init, x, before);
        lemma_inserted_elements(init, x, before, y);
        if r.contains(y) {
            let k = choose|k: int| 0 <= k < r.len() && r[k] == y;
            if k < q.len() {
                assert(q[k] == y);
                if init.contains(y) {
                    let j = choose|j: int| 0 <= j < init.len() && init[j] == y;
                    assert(s[j] == y);
                }
            } else {
                assert(s[s.len() - 1] == y);
            }
        }
        if y == x || s.contains(y) {
            if s.contains(y) && !init.contains(y) {
                let j = choose|j: int| 0 <= j < s.len() && s[j] == y;
                assert(j < init.len() ==> init[j] == y);
                assert(r[r.len() - 1] == y);
            } else {
                let k = choose|k: int| 0 <= k < q.len() && q[k] == y;
                assert(r[k] == y);
            }
        }
    }
}

/// Sorting neither adds nor loses an element.
pub proof fn sorted_keeps_elements<V>(s: Seq<V>, before: spec_fn(V, V) -> bool, y: V)
    ensures
        sorted(s, before).contains(y) <==> s.contains(y),
    decreases s.len(),
{
    if s.len() > 0 {
        let init = s.drop_last();
        sorted_keeps_elements(init, before, y);
        lemma_inserted_elements(sorted(init, before), s.last(), before, y);
        if s.contains(y) {
            let j = choose|j: int| 0 <= j < s.len() && s[j] == y;
            assert(j < init.len() ==> init[j] == y);
        }
        if init.contains(y) {
            let j = choose|j: int| 0 <= j < init.len() && init[j] == y;
            assert(s[j] == y);
        }
        assert(s[s.len() - 1] == s.last());
    }
}

/// Whether any two elements are related.
pub open spec fn pairwise<V>(s: Seq<V>, p: spec_fn(V, V) -> bool) -> bool {
    forall|a: int, b: int|
        0 <= a < s.len() && 0 <= b < s.len() && a != b ==> p(#[trigger] s[a], #[trigger] s[b])
}

/// The place that sorting gives to an element.
pub proof fn place_in_sorted<V>(s: Seq<V>, before: spec_fn(V, V) -> bool, i: int) -> (k: int)
    requires
        0 <= i < s.len(),
    ensures
        0 <= k < sorted(s, before).len(),
        sorted(s, before)[k] == s[i],
{
    sorted_keeps_elements(s, before, s[i]);
    assert(s.contains(s[i]));
    choose|k: int| 0 <= k < sorted(s, before).len() && sorted(s, before)[k] == s[i]
}

/// A place from which sorting took an element.
pub proof fn place_before_sorting<V>(s: Seq<V>, before: spec_fn(V, V) -> bool, k: int) -> (i: int)
    requires
        0 <= k < sorted(s, before).len(),
    ensures
        0 <= i < s.len(),
        sorted(s, before)[k] == s[i],
{
    let r = sorted(s, before);
    sorted_keeps_elements(s, before, r[k]);
    assert(r.contains(r[k]));
    choose|i: int| 0 <= i < s.len() && s[i] == r[k]
}

proof fn lemma_inserted_length<V>(s: Seq<V>, x: V, before: spec_fn(V, V) -> bool)
    ensures
        inserted(s, x, before).len() == s.len() + 1,
    decreases s.len(),
{
    if s.len() > 0 && before(x, s.last()) {
        lemma_inserted_length(s.drop_last(), x, before);
    }
}

/// Sorting loses nothing and adds nothing.
pub proof fn sorted_keeps_length<V>(s: Seq<V>, before: spec_fn(V, V) -> bool)
    ensures
        sorted(s, before).len() == s.len(),
    decreases s.len(),
{
    if s.len() > 0 {
        sorted_keeps_length(s.drop_last(), before);
        lemma_inserted_length(sorted(s.drop_last(), before), s.last(), before);
    }
}

proof fn lemma_inserted_keeps_pairwise<V>(
    s: Seq<V>,
    x: V,
    before: spec_fn(V, V) -> bool,
    p: spec_fn(V, V) -> bool,
)
    requires
        pairwise(s, p),
        forall|i: int| 0 <= i < s.len() ==> p(#[trigger] s[i], x) && p(x, s[i]),
    ensures
        pairwise(inserted(s, x, before), p),
    decreases s.len(),
{
    let r = inserted(s, x, before);
    if s.len() > 0 && before(x, s.last()) {
        let init = s.drop_last();
        let q = inserted(init, x, before);
        let y = s.last();
        assert forall|a: int, b: int| 0 <= a < init.len() && 0 <= b < init.len() && a
            != b implies p(#[trigger] init[a], #[trigger] init[b]) by {
            assert(p(s[a], s[b]));
        }
        assert forall|i: int| 0 <= i < init.len() implies p(#[trigger] init[i], x) && p(
            x,
            init[i],
        ) by {
            assert(p(s[i], x) && p(x, s[i]));
        }
        lemma_inserted_keeps_pairwise(init, x, before, p);
        let both = |z: V| p(z, y) && p(y, z);
        assert forall|i: int| 0 <= i < init.len() implies both(#[trigger] init[i]) by {
            assert(p(s[i], s[s.len() - 1]) && p(s[s.len() - 1], s[i]));
        }
        assert(p(s[s.len() - 1], x) && p(x, s[s.len() - 1]));
        lemma_inserted_keeps_property(init, x, before, both);
        assert forall|a: int, b: int| 0 <= a < r.len() && 0 <= b < r.len() && a != b implies p(
            #[trigger] r[a],
            #[trigger] r[b],
        ) by {
            if a < q.len() && b < q.len() {
                assert(p(q[a], q[b]));
            } else if a < q.len() {
                assert(both(q[a]));
            } else {
                assert(both(q[b]));
            }
        }
    }
}

/// A relation between any two elements holds after sorting too.
pub proof fn sorted_keeps_pairwise<V>(
    s: Seq<V>,
    before: spec_fn(V, V) -> bool,
    p: spec_fn(V, V) -> bool,
)
    requires
        pairwise(s, p),
    ensures
        pairwise(sorted(s, before), p),
    decreases s.len(),
{
    if s.len() > 0 {
        let init = s.drop_last();
        let x = s.last();
        assert forall|a: int, b: int| 0 <= a < init.len() && 0 <= b < init.len() && a
            != b implies p(#[trigger] init[a], #[trigger] init[b]) by {
            assert(p(s[a], s[b]));
        }
        sorted_keeps_pairwise(init, before, p);
        let both = |z: V| p(z, x) && p(x, z);
        assert forall|i: int| 0 <= i < init.len() implies both(#[trigger] init[i]) by {
            assert(p(s[i], s[s.len() - 1]) && p(s[s.len() - 1], s[i]));
        }
        sorted_keeps_property(init, before, both);
        let t = sorted(init, before);
        assert forall|i: int| 0 <= i < t.len() implies p(#[trigger] t[i], x) && p(x, t[i]) by {
            assert(both(t[i]));
        }
        lemma_inserted_keeps_pairwise(t, x, before, p);
    }
}

/// The views of a sequence of values.
pub open spec fn views<T: View>(s: Seq<T>) -> Seq<T::V> {
    s.map_values(|x: T| x@)
}

fn insert_ranked<T: Ranked>(v: &mut Vec<T>, x: T)
    ensures
        views(final(v)@) == inserted(views(old(v)@), x@, T::order()),
{
    let ghost s = views(v@);
    let ghost before = T::order();
    let mut i: usize = v.len();
    assert(s.take(i as int) =~= s);
    assert(inserted(s, x@, before) =~= inserted(s.take(i as int), x@, before) + s.skip(i as int));
    while i > 0 && x.goes_before(&v[i - 1])
        invariant
            i <= s.len(),
            views(v@) == s,
            before == T::order(),
            inserted(s, x@, before) == inserted(s.take(i as int), x@, before) + s.skip(i as int),
        decreases i,
    {
        let ghost t = s.take(i as int);
        assert(t.drop_last() =~= s.take(i - 1));
        assert(t.last() == s[i - 1]);
        assert(s[i - 1] == v@[i - 1]@);
        assert(inserted(s.take(i - 1), x@, before).push(s[i - 1]) + s.skip(i as int) =~= inserted(
            s.take(i - 1),
            x@,
            before,
        ) + s.skip(i - 1));
        i = i - 1;
    }
    proof {
        if i > 0 {
            assert(s.take(i as int).last() == v@[i - 1]@);
        }
    }
    assert(inserted(s, x@, before) =~= s.take(i as int).push(x@) + s.skip(i as int));
    assert(views(v@.insert(i as int, x)) =~= s.take(i as int).push(x@) + s.skip(i as int));
    v.insert(i, x);
}

/// Sorts; elements of which neither goes before the other keep their order.
pub fn stable_sort<T: Ranked>(mut v: Vec<T>) -> (r: Vec<T>)
    ensures
        views(r@) == sorted(views(v@), T::order()),
{
    let ghost s = views(v@);
    let mut out: Vec<T> = Vec::new();
    let ghost mut done: int = 0;
    assert(s.skip(0) =~= s);
    assert(s.take(0) =~= Seq::<T::V>::empty());
    assert(views(out@) =~= Seq::<T::V>::empty());
    while v.len() > 0
        invariant
            0 <= done <= s.len(),
            views(v@) == s.skip(done),
            views(out@) == sorted(s.take(done), T::order()),
        decreases v@.len(),
    {
        let ghost was = v@;
        let x = v.remove(0);
        insert_ranked(&mut out, x);
        proof {
            assert(views(was)[0] == s.skip(done)[0]);
            assert(was.len() == views(was).len());
            assert(s.skip(done)[0] == s[done]);
            assert forall|i: int| 0 <= i < v@.len() implies views(v@)[i] == s.skip(done + 1)[i] by {
                assert(v@[i] == was[i + 1]);
                assert(views(was)[i + 1] == s.skip(done)[i + 1]);
            }
            assert(views(v@) =~= s.skip(done + 1));
            assert(s.take(done + 1).drop_last() =~= s.take(done));
            assert(s.take(done + 1).last() == s[done]);
            done = done + 1;
        }
    }
    assert(views(v@).len() == 0);
    assert(s.take(done) =~= s);
    out
}

} // verus!
