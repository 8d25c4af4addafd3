//! Stable sorting.
use vstd::prelude::*;

verus! {

/// `x` put into an ordered list: after everything that does not come after it.
pub open spec fn placed<T>(s: Seq<T>, x: T, after: spec_fn(T, T) -> bool) -> Seq<T>
    decreases s.len(),
{
    if s.len() > 0 && after(s.last(), x) {
        placed(s.drop_last(), x, after).push(s.last())
    } else {
        s.push(x)
    }
}

/// The elements in ascending order, those of equal rank in the order in which they came.
pub open spec fn arranged<T>(s: Seq<T>, after: spec_fn(T, T) -> bool) -> Seq<T>
    decreases s.len(),
{
    if s.len() == 0 {
        seq![]
    } else {
        placed(arranged(s.drop_last(), after), s.last(), after)
    }
}

/// Whether `after` is a strict order in which incomparable elements rank equal.
pub open spec fn ranks<T>(after: spec_fn(T, T) -> bool) -> bool {
    &&& forall|a: T, b: T| #[trigger] after(a, b) ==> !after(b, a)
    &&& forall|a: T, b: T, c: T|
        #![trigger after(a, b), after(b, c)]
        after(a, c) ==> after(a, b) || after(b, c)
}

/// Whether nothing in the list comes after a later element.
pub open spec fn ascending<T>(s: Seq<T>, after: spec_fn(T, T) -> bool) -> bool {
    forall|i: int, j: int| 0 <= i < j < s.len() ==> !(#[trigger] after(s[i], s[j]))
}

/// Placing an element adds it and keeps the rest.
pub proof fn lemma_placed<T>(s: Seq<T>, x: T, after: spec_fn(T, T) -> bool)
    ensures
        placed(s, x, after).len() == s.len() + 1,
        placed(s, x, after).to_multiset() == s.to_multiset().insert(x),
        ranks(after) && ascending(s, after) ==> ascending(placed(s, x, after), after),
    decreases s.len(),
{
    broadcast use vstd::seq_lib::group_to_multiset_ensures;

    if s.len() > 0 && after(s.last(), x) {
        let head = s.drop_last();
        lemma_placed(head, x, after);
        assert(s =~= head.push(s.last()));
        assert(placed(s, x, after).to_multiset() =~= s.to_multiset().insert(x));
        if ranks(after) && ascending(s, after) {
            let p = placed(head, x, after);
            assert(ascending(head, after));
            assert forall|i: int| 0 <= i < p.len() implies !after(p[i], s.last()) by {
                assert(p.to_multiset().count(p[i]) > 0);
                if p[i] == x {
                } else {
                    assert(head.to_multiset().count(p[i]) > 0);
                    assert(head.contains(p[i]));
                    let k = choose|k: int| 0 <= k < head.len() && head[k] == p[i];
                    assert(!after(s[k], s[s.len() - 1]));
                }
            }
            let q = placed(s, x, after);
            assert forall|i: int, j: int| 0 <= i < j < q.len() implies !after(q[i], q[j]) by {
                if j < p.len() {
                    assert(!after(p[i], p[j]));
                }
            }
        }
    } else {
        if ranks(after) && ascending(s, after) {
            let q = placed(s, x, after);
            assert forall|i: int, j: int| 0 <= i < j < q.len() implies !after(q[i], q[j]) by {
                if j == s.len() && i < s.len() - 1 {
                    if after(s[i], x) {
                        assert(after(s[i], s.last()) || after(s.last(), x));
                    }
                }
            }
        }
    }
}

/// Sorting keeps the elements, and puts them in order.
pub proof fn lemma_arranged<T>(s: Seq<T>, after: spec_fn(T, T) -> bool)
    ensures
        arranged(s, after).len() == s.len(),
        arranged(s, after).to_multiset() == s.to_multiset(),
        ranks(after) ==> ascending(arranged(s, after), after),
    decreases s.len(),
{
    broadcast use vstd::seq_lib::group_to_multiset_ensures;

    if s.len() > 0 {
        lemma_arranged(s.drop_last(), after);
        lemma_placed(arranged(s.drop_last(), after), s.last(), after);
        assert(s =~= s.drop_last().push(s.last()));
    } else {
        assert(s =~= seq![]);
    }
}

/// Each element of a sorted list is one of the list it was made from.
pub proof fn lemma_arranged_member<T>(s: Seq<T>, after: spec_fn(T, T) -> bool, i: int)
    requires
        0 <= i < arranged(s, after).len(),
    ensures
        s.contains(arranged(s, after)[i]),
{
    broadcast use vstd::seq_lib::group_to_multiset_ensures;

    lemma_arranged(s, after);
    assert(arranged(s, after).to_multiset().count(arranged(s, after)[i]) > 0);
}

/// Whether every two elements are so related.
pub open spec fn pairwise<T>(s: Seq<T>, related: spec_fn(T, T) -> bool) -> bool {
    forall|i: int, j: int|
        #![trigger related(s[i], s[j])]
        0 <= i < s.len() && 0 <= j < s.len() && i != j ==> related(s[i], s[j])
}

proof fn lemma_placed_pairwise<T>(
    s: Seq<T>,
    x: T,
    after: spec_fn(T, T) -> bool,
    related: spec_fn(T, T) -> bool,
)
    requires
        pairwise(s, related),
        forall|i: int| 0 <= i < s.len() ==> related(#[trigger] s[i], x) && related(x, s[i]),
    ensures
        pairwise(placed(s, x, after), related),
        forall|i: int|
            0 <= i < placed(s, x, after).len() ==> (#[trigger] placed(s, x, after)[i]) == x
                || s.contains(placed(s, x, after)[i]),
    decreases s.len(),
{
    if s.len() > 0 && after(s.last(), x) {
        let head = s.drop_last();
        assert(pairwise(head, related)) by {
            assert forall|i: int, j: int|
                #![trigger related(head[i], head[j])]
                0 <= i < head.len() && 0 <= j < head.len() && i != j implies related(
                head[i],
                head[j],
            ) by {
                assert(related(s[i], s[j]));
            }
        }
        assert forall|i: int| 0 <= i < head.len() implies related(#[trigger] head[i], x)
            && related(x, head[i]) by {
            assert(s[i] == head[i]);
        }
        lemma_placed_pairwise(head, x, after, related);
        let p = placed(head, x, after);
        let q = placed(s, x, after);
        let last = s.last();
        assert(last == s[s.len() - 1]);
        assert forall|i: int| 0 <= i < p.len() implies related(#[trigger] p[i], last) && related(
            last,
            p[i],
        ) by {
            if p[i] != x {
                let k = choose|k: int| 0 <= k < head.len() && head[k] == p[i];
                assert(related(s[k], s[s.len() - 1]));
                assert(related(s[s.len() - 1], s[k]));
            }
        }
        assert forall|i: int, j: int|
            #![trigger related(q[i], q[j])]
            0 <= i < q.len() && 0 <= j < q.len() && i != j implies related(q[i], q[j]) by {
            if i < p.len() && j < p.len() {
                assert(related(p[i], p[j]));
            } else if i < p.len() {
                assert(q[i] == p[i]);
            } else {
                assert(q[j] == p[j]);
            }
        }
        assert forall|i: int| 0 <= i < q.len() implies (#[trigger] q[i]) == x || s.contains(q[i]) by {
            if i < p.len() {
                assert(q[i] == p[i]);
                if p[i] != x {
                    let k = choose|k: int| 0 <= k < head.len() && head[k] == p[i];
                    assert(s[k] == q[i]);
                }
            } else {
                assert(s[s.len() - 1] == q[i]);
            }
        }
    } else {
        let q = placed(s, x, after);
        assert forall|i: int| 0 <= i < q.len() implies (#[trigger] q[i]) == x || s.contains(q[i]) by {
            if i < s.len() {
                assert(s[i] == q[i]);
            }
        }
        assert forall|i: int, j: int|
            #![trigger related(q[i], q[j])]
            0 <= i < q.len() && 0 <= j < q.len() && i != j implies related(q[i], q[j]) by {
            if i < s.len() && j < s.len() {
                assert(related(s[i], s[j]));
            } else if i < s.len() {
                assert(q[i] == s[i]);
            } else {
                assert(q[j] == s[j]);
            }
        }
    }
}

/// Sorting keeps what holds of every two elements.
pub proof fn lemma_arranged_pairwise<T>(
    s: Seq<T>,
    after: spec_fn(T, T) -> bool,
    related: spec_fn(T, T) -> bool,
)
    requires
        pairwise(s, related),
    ensures
        pairwise(arranged(s, after), related),
    decreases s.len(),
{
    if s.len() > 0 {
        let head = s.drop_last();
        assert forall|i: int, j: int|
            #![trigger related(head[i], head[j])]
            0 <= i < head.len() && 0 <= j < head.len() && i != j implies related(
            head[i],
            head[j],
        ) by {
            assert(related(s[i], s[j]));
        }
        lemma_arranged_pairwise(head, after, related);
        let sorted = arranged(head, after);
        let last = s[s.len() - 1];
        assert forall|i: int| 0 <= i < sorted.len() implies related(#[trigger] sorted[i], last)
            && related(last, sorted[i]) by {
            lemma_arranged_member(head, after, i);
            let k = choose|k: int| 0 <= k < head.len() && head[k] == sorted[i];
            assert(related(s[k], s[s.len() - 1]));
            assert(related(s[s.len() - 1], s[k]));
        }
        lemma_placed_pairwise(sorted, last, after, related);
    }
}

/// Sorting what elements stand for, or sorting the elements: the same.
pub proof fn lemma_arranged_map<A, B>(
    s: Seq<A>,
    f: spec_fn(A) -> B,
    after: spec_fn(A, A) -> bool,
    after_image: spec_fn(B, B) -> bool,
)
    requires
        forall|a: A, b: A| #[trigger] after(a, b) == after_image(f(a), f(b)),
    ensures
        arranged(s, after).map_values(f) == arranged(s.map_values(f), after_image),
    decreases s.len(),
{
    if s.len() > 0 {
        lemma_arranged_map(s.drop_last(), f, after, after_image);
        lemma_placed_map(arranged(s.drop_last(), after), s.last(), f, after, after_image);
        assert(s.map_values(f).drop_last() =~= s.drop_last().map_values(f));
    } else {
        assert(arranged(s, after).map_values(f) =~= seq![]);
    }
}

proof fn lemma_placed_map<A, B>(
    s: Seq<A>,
    x: A,
    f: spec_fn(A) -> B,
    after: spec_fn(A, A) -> bool,
    after_image: spec_fn(B, B) -> bool,
)
    requires
        forall|a: A, b: A| #[trigger] after(a, b) == after_image(f(a), f(b)),
    ensures
        placed(s, x, after).map_values(f) == placed(s.map_values(f), f(x), after_image),
    decreases s.len(),
{
    if s.len() > 0 && after(s.last(), x) {
        lemma_placed_map(s.drop_last(), x, f, after, after_image);
        assert(s.map_values(f).drop_last() =~= s.drop_last().map_values(f));
        assert(placed(s, x, after).map_values(f) =~= placed(s.drop_last(), x, after).map_values(
            f,
        ).push(f(s.last())));
    } else {
        assert(s.push(x).map_values(f) =~= s.map_values(f).push(f(x)));
    }
}

/// Where `x` goes: behind the last element that does not come after it.
proof fn lemma_placed_at<T>(s: Seq<T>, x: T, after: spec_fn(T, T) -> bool, at: int)
    requires
        0 <= at <= s.len(),
        forall|i: int| at <= i < s.len() ==> after(#[trigger] s[i], x),
        at > 0 ==> !after(s[at - 1], x),
    ensures
        placed(s, x, after) == s.insert(at, x),
    decreases s.len(),
{
    if at < s.len() {
        assert(after(s[s.len() - 1], x));
        lemma_placed_at(s.drop_last(), x, after, at);
        assert(s.drop_last().insert(at, x).push(s.last()) =~= s.insert(at, x));
    } else {
        assert(s.insert(at, x) =~= s.push(x));
    }
}

/// The elements in ascending order, those of equal rank in the order in which they came.
pub fn sort<T, F: Fn(&T, &T) -> bool>(
    items: Vec<T>,
    comes_after: F,
    Ghost(after): Ghost<spec_fn(T, T) -> bool>,
) -> (r: Vec<T>)
    requires
        forall|a: &T, b: &T| call_requires(comes_after, (a, b)),
        forall|a: &T, b: &T, y: bool| call_ensures(comes_after, (a, b), y) ==> y == after(*a, *b),
    ensures
        r@ == arranged(items@, after),
{
    let mut r: Vec<T> = Vec::new();
    for x in it: items
        invariant
            forall|a: &T, b: &T| call_requires(comes_after, (a, b)),
            forall|a: &T, b: &T, y: bool| call_ensures(comes_after, (a, b), y) ==> y == after(*a, *b),
            it.seq() == items@,
            r@ == arranged(items@.take(it.index()), after),
    {
        let mut at: usize = r.len();
        while at > 0 && comes_after(&r[at - 1], &x)
            invariant
                forall|a: &T, b: &T| call_requires(comes_after, (a, b)),
                forall|a: &T, b: &T, y: bool|
                    call_ensures(comes_after, (a, b), y) ==> y == after(*a, *b),
                at <= r@.len(),
                forall|i: int| at <= i < r@.len() ==> after(#[trigger] r@[i], x),
            decreases at,
        {
            at = at - 1;
        }
        proof {
            lemma_placed_at(r@, x, after, at as int);
            let done = items@.take(it.index());
            assert(items@.take(it.index() + 1) =~= done.push(x));
            assert(done.push(x).drop_last() =~= done);
        }
        r.insert(at, x);
    }
    assert(items@.take(items@.len() as int) =~= items@);
    r
}

/// Where no two different elements rank equal, there is only one way to put elements in order:
/// the order in which they came makes no difference.
pub proof fn law_order_is_unique<T>(x: Seq<T>, y: Seq<T>, after: spec_fn(T, T) -> bool)
    requires
        ranks(after),
        x.to_multiset() == y.to_multiset(),
        forall|i: int, j: int|
            0 <= i < x.len() && 0 <= j < x.len() && x[i] != x[j] ==> #[trigger] after(x[i], x[j])
                || after(x[j], x[i]),
    ensures
        arranged(x, after) == arranged(y, after),
{
    broadcast use vstd::seq_lib::group_to_multiset_ensures;

    lemma_arranged(x, after);
    lemma_arranged(y, after);
    let p = arranged(x, after);
    assert forall|i: int, j: int|
        0 <= i < p.len() && 0 <= j < p.len() && p[i] != p[j] implies #[trigger] after(p[i], p[j])
        || after(p[j], p[i]) by {
        lemma_arranged_member(x, after, i);
        lemma_arranged_member(x, after, j);
        let k = choose|k: int| 0 <= k < x.len() && x[k] == p[i];
        let l = choose|l: int| 0 <= l < x.len() && x[l] == p[j];
        assert(after(x[k], x[l]) || after(x[l], x[k]));
    }
    lemma_ascending_unique(p, arranged(y, after), after);
}

/// Two lists of the same elements, both in order, are the same.
proof fn lemma_ascending_unique<T>(x: Seq<T>, y: Seq<T>, after: spec_fn(T, T) -> bool)
    requires
        ascending(x, after),
        ascending(y, after),
        x.to_multiset() == y.to_multiset(),
        forall|i: int, j: int|
            0 <= i < x.len() && 0 <= j < x.len() && x[i] != x[j] ==> #[trigger] after(x[i], x[j])
                || after(x[j], x[i]),
    ensures
        x == y,
    decreases x.len(),
{
    broadcast use vstd::seq_lib::group_to_multiset_ensures;

    assert(x.len() == x.to_multiset().len() && y.len() == y.to_multiset().len());
    if x.len() > 0 {
        let a = x.last();
        let b = y.last();
        assert(x.to_multiset().count(b) > 0) by {
            assert(y.contains(b));
        }
        assert(y.to_multiset().count(a) > 0) by {
            assert(x.contains(a));
        }
        let i = choose|i: int| 0 <= i < x.len() && x[i] == b;
        let j = choose|j: int| 0 <= j < y.len() && y[j] == a;
        if a != b {
            assert(!after(x[i], x[x.len() - 1]));
            assert(!after(y[j], y[y.len() - 1]));
            assert(after(x[i], x[x.len() - 1]) || after(x[x.len() - 1], x[i]));
            assert(false);
        }
        let p = x.drop_last();
        let q = y.drop_last();
        assert(x =~= p.push(a));
        assert(y =~= q.push(a));
        assert(p.to_multiset() =~= x.to_multiset().remove(a));
        assert(q.to_multiset() =~= y.to_multiset().remove(a));
        assert forall|k: int, l: int| 0 <= k < l < p.len() implies !(#[trigger] after(p[k], p[l]))
            by {
            assert(!after(x[k], x[l]));
        }
        assert forall|k: int, l: int| 0 <= k < l < q.len() implies !(#[trigger] after(q[k], q[l]))
            by {
            assert(!after(y[k], y[l]));
        }
        assert forall|k: int, l: int|
            0 <= k < p.len() && 0 <= l < p.len() && p[k] != p[l] implies #[trigger] after(
            p[k],
            p[l],
        ) || after(p[l], p[k]) by {
            assert(after(x[k], x[l]) || after(x[l], x[k]));
        }
        lemma_ascending_unique(p, q, after);
    } else {
        assert(x =~= y);
    }
}

} // verus!
