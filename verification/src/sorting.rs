//! Stable sorting.

use vstd::prelude::*;
use vstd::seq_lib::*;

verus! {

/// `s` with `x` put in behind the last element that may stand before it.
pub open spec fn insert_after<T>(s: Seq<T>, x: T, le: spec_fn(T, T) -> bool) -> Seq<T>
    decreases s.len(),
{
    if s.len() == 0 || le(s.last(), x) {
        s.push(x)
    } else {
        insert_after(s.drop_last(), x, le).push(s.last())
    }
}

/// `s` in the order `le`; elements that may stand either way keep their order.
pub open spec fn stable_sort<T>(s: Seq<T>, le: spec_fn(T, T) -> bool) -> Seq<T>
    decreases s.len(),
{
    if s.len() == 0 {
        s
    } else {
        insert_after(stable_sort(s.drop_last(), le), s.last(), le)
    }
}

/// Each element may stand before each later one.
pub open spec fn in_order<T>(s: Seq<T>, le: spec_fn(T, T) -> bool) -> bool {
    forall|i: int, j: int| 0 <= i < j < s.len() ==> #[trigger] le(s[i], s[j])
}

/// `le` puts any two elements in some order, and orders agree.
pub open spec fn is_order<T>(le: spec_fn(T, T) -> bool) -> bool {
    &&& forall|a: T, b: T| #[trigger] le(a, b) || le(b, a)
    &&& forall|a: T, b: T, c: T| #[trigger] le(a, b) && #[trigger] le(b, c) ==> le(a, c)
}

/// Where `x` goes, seen from the front.
pub proof fn lemma_insert_at<T>(s: Seq<T>, x: T, le: spec_fn(T, T) -> bool, j: int)
    requires
        0 <= j <= s.len(),
        forall|i: int| j <= i < s.len() ==> !#[trigger] le(s[i], x),
        j > 0 ==> le(s[j - 1], x),
    ensures
        insert_after(s, x, le) == s.insert(j, x),
    decreases s.len(),
{
    if s.len() == 0 || le(s.last(), x) {
        if j < s.len() {
            assert(!le(s[s.len() - 1], x));
        }
        assert(s.push(x) =~= s.insert(j, x));
    } else {
        let init = s.drop_last();
        assert(j < s.len());
        assert forall|i: int| j <= i < init.len() implies !#[trigger] le(init[i], x) by {
            assert(!le(s[i], x));
        }
        lemma_insert_at(init, x, le, j);
        assert(init.insert(j, x).push(s.last()) =~= s.insert(j, x));
    }
}

proof fn lemma_insert<T>(s: Seq<T>, x: T, le: spec_fn(T, T) -> bool)
    ensures
        insert_after(s, x, le).to_multiset() == s.to_multiset().insert(x),
        insert_after(s, x, le).len() == s.len() + 1,
        is_order(le) && in_order(s, le) ==> in_order(insert_after(s, x, le), le),
    decreases s.len(),
{
    broadcast use group_to_multiset_ensures;

    if s.len() == 0 || le(s.last(), x) {
        if is_order(le) && in_order(s, le) {
            assert forall|i: int, j: int| 0 <= i < j < s.push(x).len() implies #[trigger] le(
                s.push(x)[i],
                s.push(x)[j],
            ) by {
                if j < s.len() {
                    assert(le(s[i], s[j]));
                } else if i < s.len() - 1 {
                    assert(le(s[i], s[s.len() - 1]));
                    assert(le(s.last(), x));
                }
            }
        }
    } else {
        let init = s.drop_last();
        lemma_insert(init, x, le);
        let put = insert_after(init, x, le);
        assert(s =~= init.push(s.last()));
        assert(put.push(s.last()).to_multiset() =~= s.to_multiset().insert(x));
        if is_order(le) && in_order(s, le) {
            assert forall|i: int, j: int| 0 <= i < j < init.len() implies #[trigger] le(
                init[i],
                init[j],
            ) by {
                assert(le(s[i], s[j]));
            }
            let all = put.push(s.last());
            assert forall|i: int, j: int| 0 <= i < j < all.len() implies #[trigger] le(
                all[i],
                all[j],
            ) by {
                if j < put.len() {
                    assert(le(put[i], put[j]));
                } else {
                    assert(put.to_multiset().contains(put[i]));
                    assert(init.to_multiset().contains(put[i]) || put[i] == x);
                    if put[i] == x {
                        assert(le(s.last(), x) || le(x, s.last()));
                    } else {
                        let k = choose|k: int| 0 <= k < init.len() && init[k] == put[i];
                        assert(le(s[k], s[s.len() - 1]));
                    }
                }
            }
        }
    }
}

/// Sorting keeps every element, as often as it was there, and puts them in
/// order.
pub proof fn law_sort_orders<T>(s: Seq<T>, le: spec_fn(T, T) -> bool)
    requires
        is_order(le),
    ensures
        in_order(stable_sort(s, le), le),
        stable_sort(s, le).to_multiset() == s.to_multiset(),
        stable_sort(s, le).len() == s.len(),
    decreases s.len(),
{
    broadcast use group_to_multiset_ensures;

    if s.len() > 0 {
        law_sort_orders(s.drop_last(), le);
        lemma_insert(stable_sort(s.drop_last(), le), s.last(), le);
        assert(s =~= s.drop_last().push(s.last()));
    }
}

proof fn lemma_insert_filter<T>(
    s: Seq<T>,
    x: T,
    le: spec_fn(T, T) -> bool,
    p: spec_fn(T) -> bool,
)
    requires
        forall|a: T, b: T| p(a) && p(b) ==> #[trigger] le(a, b),
    ensures
        insert_after(s, x, le).filter(p) == if p(x) {
            s.filter(p).push(x)
        } else {
            s.filter(p)
        },
    decreases s.len(),
{
    reveal(Seq::filter);
    if s.len() == 0 || le(s.last(), x) {
        assert(s.push(x).drop_last() =~= s);
    } else {
        let init = s.drop_last();
        lemma_insert_filter(init, x, le, p);
        let put = insert_after(init, x, le);
        assert(put.push(s.last()).drop_last() =~= put);
        assert(!(p(x) && p(s.last())));
    }
}

/// Elements that may stand either way keep their order.
pub proof fn law_sort_is_stable<T>(
    s: Seq<T>,
    le: spec_fn(T, T) -> bool,
    p: spec_fn(T) -> bool,
)
    requires
        forall|a: T, b: T| p(a) && p(b) ==> #[trigger] le(a, b),
    ensures
        stable_sort(s, le).filter(p) == s.filter(p),
    decreases s.len(),
{
    reveal(Seq::filter);
    if s.len() > 0 {
        law_sort_is_stable(s.drop_last(), le, p);
        lemma_insert_filter(stable_sort(s.drop_last(), le), s.last(), le, p);
    }
}

/// `le` puts two different elements in one order only.
pub open spec fn is_strict<T>(le: spec_fn(T, T) -> bool) -> bool {
    forall|a: T, b: T| #[trigger] le(a, b) && le(b, a) ==> a == b
}

proof fn lemma_ordered_unique<T>(a: Seq<T>, b: Seq<T>, le: spec_fn(T, T) -> bool)
    requires
        is_order(le),
        is_strict(le),
        in_order(a, le),
        in_order(b, le),
        a.to_multiset() == b.to_multiset(),
    ensures
        a == b,
    decreases a.len(),
{
    broadcast use group_to_multiset_ensures;

    assert(a.len() == a.to_multiset().len());
    assert(b.len() == b.to_multiset().len());
    if a.len() == 0 {
        assert(a =~= b);
    } else {
        let x = a.last();
        let y = b.last();
        assert(a.to_multiset().contains(x)) by {
            assert(a[a.len() - 1] == x);
        }
        assert(b.to_multiset().contains(y)) by {
            assert(b[b.len() - 1] == y);
        }
        assert(b.contains(x));
        assert(a.contains(y));
        let i = choose|i: int| 0 <= i < b.len() && b[i] == x;
        let j = choose|j: int| 0 <= j < a.len() && a[j] == y;
        assert(le(x, x) || le(x, x));
        if i < b.len() - 1 {
            assert(le(b[i], b[b.len() - 1]));
        }
        if j < a.len() - 1 {
            assert(le(a[j], a[a.len() - 1]));
        }
        assert(x == y);
        let c = a.drop_last();
        let d = b.drop_last();
        assert(a =~= c.push(x));
        assert(b =~= d.push(x));
        assert(c.to_multiset() =~= a.to_multiset().remove(x));
        assert(d.to_multiset() =~= b.to_multiset().remove(x));
        assert forall|p: int, q: int| 0 <= p < q < c.len() implies #[trigger] le(c[p], c[q]) by {
            assert(le(a[p], a[q]));
        }
        assert forall|p: int, q: int| 0 <= p < q < d.len() implies #[trigger] le(d[p], d[q]) by {
            assert(le(b[p], b[q]));
        }
        lemma_ordered_unique(c, d, le);
    }
}

/// Sorting forgets the order that the elements came in.
pub proof fn law_sort_is_canonical<T>(a: Seq<T>, b: Seq<T>, le: spec_fn(T, T) -> bool)
    requires
        is_order(le),
        is_strict(le),
        a.to_multiset() == b.to_multiset(),
    ensures
        stable_sort(a, le) == stable_sort(b, le),
{
    law_sort_orders(a, le);
    law_sort_orders(b, le);
    lemma_ordered_unique(stable_sort(a, le), stable_sort(b, le), le);
}

}
