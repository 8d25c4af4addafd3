//! What can be reached from where, step by step.
use vstd::prelude::*;

verus! {

/// Whether each place on the way leads to the next one.
pub open spec fn is_chain(edge: spec_fn(int, int) -> bool, way: Seq<int>) -> bool {
    &&& way.len() > 0
    &&& forall|i: int| 0 <= i < way.len() - 1 ==> edge(#[trigger] way[i], way[i + 1])
}

/// Whether a way leads from one place to another, in any number of steps, none included.
pub open spec fn reaches(edge: spec_fn(int, int) -> bool, from: int, to: int) -> bool {
    exists|way: Seq<int>| #[trigger] is_chain(edge, way) && way[0] == from && way.last() == to
}

/// Whether lists hold, for each place, the places that it leads to.
pub open spec fn lists_edges(links: Seq<Vec<usize>>, edge: spec_fn(int, int) -> bool) -> bool {
    forall|a: int, b: int|
        0 <= a < links.len() ==> (#[trigger] edge(a, b) <==> 0 <= b < links.len() && links[a]@.contains(
            b as usize,
        ))
}

/// How many places were not seen.
spec fn unseen(seen: Seq<bool>) -> nat
    decreases seen.len(),
{
    if seen.len() == 0 {
        0
    } else if seen.last() {
        unseen(seen.drop_last())
    } else {
        unseen(seen.drop_last()) + 1
    }
}

proof fn lemma_all_unseen(seen: Seq<bool>)
    requires
        forall|i: int| 0 <= i < seen.len() ==> !#[trigger] seen[i],
    ensures
        unseen(seen) == seen.len(),
    decreases seen.len(),
{
    if seen.len() > 0 {
        lemma_all_unseen(seen.drop_last());
    }
}

proof fn lemma_seen(seen: Seq<bool>, i: int)
    requires
        0 <= i < seen.len(),
        !seen[i],
    ensures
        unseen(seen) == unseen(seen.update(i, true)) + 1,
    decreases seen.len(),
{
    let after = seen.update(i, true);
    if i < seen.len() - 1 {
        lemma_seen(seen.drop_last(), i);
        assert(after.drop_last() =~= seen.drop_last().update(i, true));
    } else {
        assert(after.drop_last() =~= seen.drop_last());
    }
}

/// A place reaches itself.
pub proof fn lemma_reaches_itself(edge: spec_fn(int, int) -> bool, a: int)
    ensures
        reaches(edge, a, a),
{
    assert(is_chain(edge, seq![a]));
}

/// One step more.
pub proof fn lemma_one_step_more(edge: spec_fn(int, int) -> bool, a: int, b: int, c: int)
    requires
        reaches(edge, a, b),
        edge(b, c),
    ensures
        reaches(edge, a, c),
{
    let way = choose|way: Seq<int>|
        #[trigger] is_chain(edge, way) && way[0] == a && way.last() == b;
    let longer = way.push(c);
    assert forall|i: int| 0 <= i < longer.len() - 1 implies edge(#[trigger] longer[i], longer[i + 1])
        by {
        if i < way.len() - 1 {
            assert(edge(way[i], way[i + 1]));
        }
    }
    assert(is_chain(edge, longer));
}

/// Whoever gets elsewhere takes a first step.
pub proof fn lemma_first_step(edge: spec_fn(int, int) -> bool, a: int, b: int)
    requires
        reaches(edge, a, b),
        a != b,
    ensures
        exists|c: int| #[trigger] edge(a, c),
{
    let way = choose|way: Seq<int>|
        #[trigger] is_chain(edge, way) && way[0] == a && way.last() == b;
    assert(edge(way[0], way[0int + 1]));
}

/// What is reached from a place is in every collection that holds the place and is left by no
/// step.
pub proof fn lemma_closed(edge: spec_fn(int, int) -> bool, inside: spec_fn(int) -> bool, a: int, b: int)
    requires
        inside(a),
        forall|x: int, y: int| inside(x) && #[trigger] edge(x, y) ==> inside(y),
        reaches(edge, a, b),
    ensures
        inside(b),
{
    let way = choose|way: Seq<int>|
        #[trigger] is_chain(edge, way) && way[0] == a && way.last() == b;
    lemma_closed_way(edge, inside, way, way.len() - 1);
}

proof fn lemma_closed_way(
    edge: spec_fn(int, int) -> bool,
    inside: spec_fn(int) -> bool,
    way: Seq<int>,
    k: int,
)
    requires
        is_chain(edge, way),
        inside(way[0]),
        forall|x: int, y: int| inside(x) && #[trigger] edge(x, y) ==> inside(y),
        0 <= k < way.len(),
    ensures
        inside(way[k]),
    decreases k,
{
    if k > 0 {
        lemma_closed_way(edge, inside, way, k - 1);
        assert(edge(way[k - 1], way[k - 1 + 1]));
    }
}

/// Which places are reached from one.
pub(crate) fn find_reached(
    links: &Vec<Vec<usize>>,
    from: usize,
    Ghost(edge): Ghost<spec_fn(int, int) -> bool>,
) -> (r: Vec<bool>)
    requires
        from < links@.len(),
        lists_edges(links@, edge),
    ensures
        r@.len() == links@.len(),
        forall|b: int| 0 <= b < r@.len() ==> #[trigger] r@[b] == reaches(edge, from as int, b),
{
    let count = links.len();
    let mut seen: Vec<bool> = Vec::new();
    while seen.len() < count
        invariant
            seen@.len() <= count,
            forall|i: int| 0 <= i < seen@.len() ==> !#[trigger] seen@[i],
        decreases count - seen@.len(),
    {
        seen.push(false);
    }
    let mut order: Vec<usize> = Vec::new();
    proof {
        lemma_all_unseen(seen@);
        lemma_seen(seen@, from as int);
        lemma_reaches_itself(edge, from as int);
    }
    seen.set(from, true);
    order.push(from);
    assert(order@[0] == from);
    let mut i: usize = 0;
    while i < order.len()
        invariant
            count == links@.len(),
            from < count,
            lists_edges(links@, edge),
            seen@.len() == count,
            seen@[from as int],
            i <= order@.len(),
            order@.len() + unseen(seen@) == count,
            forall|k: int| 0 <= k < order@.len() ==> #[trigger] order@[k] < count && seen@[order@[k] as int],
            forall|b: int| 0 <= b < count && #[trigger] seen@[b] ==> reaches(edge, from as int, b),
            forall|b: int| 0 <= b < count && #[trigger] seen@[b] ==> order@.contains(b as usize),
            forall|k: int, b: int|
                0 <= k < i && #[trigger] edge(order@[k] as int, b) ==> 0 <= b < count && seen@[b],
        decreases count - i,
    {
        let a = order[i];
        let next = &links[a];
        let mut m: usize = 0;
        while m < next.len()
            invariant
                count == links@.len(),
                from < count,
                a < count,
                *next == links@[a as int],
                lists_edges(links@, edge),
                seen@.len() == count,
                seen@[from as int],
                i < order@.len(),
                order@[i as int] == a,
                m <= next@.len(),
                order@.len() + unseen(seen@) == count,
                reaches(edge, from as int, a as int),
                forall|k: int|
                    0 <= k < order@.len() ==> #[trigger] order@[k] < count && seen@[order@[k] as int],
                forall|b: int|
                    0 <= b < count && #[trigger] seen@[b] ==> reaches(edge, from as int, b),
                forall|b: int| 0 <= b < count && #[trigger] seen@[b] ==> order@.contains(b as usize),
                forall|k: int, b: int|
                    0 <= k < i && #[trigger] edge(order@[k] as int, b) ==> 0 <= b < count && seen@[b],
                forall|k: int|
                    0 <= k < m && #[trigger] next@[k] < count ==> seen@[next@[k] as int],
            decreases next@.len() - m,
        {
            let b = next[m];
            if b < count && !seen[b] {
                let ghost before = order@;
                proof {
                    assert(next@.contains(b));
                    assert(edge(a as int, b as int));
                    lemma_one_step_more(edge, from as int, a as int, b as int);
                    lemma_seen(seen@, b as int);
                }
                seen.set(b, true);
                order.push(b);
                assert forall|x: int| 0 <= x < count && #[trigger] seen@[x] implies order@.contains(
                    x as usize,
                ) by {
                    if x == b {
                        assert(order@[before.len() as int] == b);
                    } else {
                        let k = choose|k: int| 0 <= k < before.len() && before[k] == x as usize;
                        assert(order@[k] == x as usize);
                    }
                }
            }
            m = m + 1;
        }
        assert forall|b: int| #[trigger] edge(a as int, b) implies 0 <= b < count && seen@[b] by {
            assert(next@.contains(b as usize));
            let k = choose|k: int| 0 <= k < next@.len() && next@[k] == b as usize;
            assert(next@[k] < count);
        }
        i = i + 1;
    }
    proof {
        let inside = |x: int| 0 <= x < count && seen@[x];
        assert forall|x: int, y: int| inside(x) && #[trigger] edge(x, y) implies inside(y) by {
            let k = choose|k: int| 0 <= k < order@.len() && order@[k] == x as usize;
            assert(order@[k] as int == x);
            assert(edge(order@[k] as int, y));
        }
        assert forall|b: int| 0 <= b < count implies #[trigger] seen@[b] == reaches(
            edge,
            from as int,
            b,
        ) by {
            if reaches(edge, from as int, b) {
                lemma_closed(edge, inside, from as int, b);
            }
        }
    }
    seen
}

/// A place reaches itself, what it leads to, and all that is reached from there; and nothing
/// else.
pub proof fn law_reached_step_by_step(edge: spec_fn(int, int) -> bool, a: int, b: int)
    ensures
        reaches(edge, a, b) <==> a == b || exists|c: int| #[trigger] edge(a, c) && reaches(edge, c, b),
{
    if a == b {
        lemma_reaches_itself(edge, a);
    }
    if reaches(edge, a, b) && a != b {
        let way = choose|way: Seq<int>|
            #[trigger] is_chain(edge, way) && way[0] == a && way.last() == b;
        let rest = way.skip(1);
        assert(edge(way[0], way[0int + 1]));
        assert forall|i: int| 0 <= i < rest.len() - 1 implies edge(#[trigger] rest[i], rest[i + 1]) by {
            assert(rest[i] == way[i + 1]);
            assert(edge(way[i + 1], way[i + 1 + 1]));
        }
        assert(is_chain(edge, rest) && rest[0] == way[1] && rest.last() == b);
        assert(edge(a, way[1]) && reaches(edge, way[1], b));
    }
    if exists|c: int| #[trigger] edge(a, c) && reaches(edge, c, b) {
        let c = choose|c: int| #[trigger] edge(a, c) && reaches(edge, c, b);
        let rest = choose|way: Seq<int>|
            #[trigger] is_chain(edge, way) && way[0] == c && way.last() == b;
        let way = seq![a] + rest;
        assert forall|i: int| 0 <= i < way.len() - 1 implies edge(#[trigger] way[i], way[i + 1]) by {
            if i > 0 {
                assert(way[i] == rest[i - 1]);
                assert(edge(rest[i - 1], rest[i - 1 + 1]));
            }
        }
        assert(is_chain(edge, way) && way[0] == a && way.last() == b);
    }
}

} // verus!
