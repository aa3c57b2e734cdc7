//! The order of paths, and stable sorting by it.
//!
//! Paths are compared component by component, components by their code points.

use vstd::prelude::*;

use crate::text::{comes_first, precedes, same, texts};

verus! {

/// Whether path `a` comes before path `b`, or is equal to it.
pub open spec fn path_precedes(a: Seq<Seq<char>>, b: Seq<Seq<char>>) -> bool
    decreases a.len(),
{
    if a.len() == 0 {
        true
    } else if b.len() == 0 {
        false
    } else if a[0] != b[0] {
        precedes(a[0], b[0])
    } else {
        path_precedes(a.skip(1), b.skip(1))
    }
}

/// The positions in order, with one more put behind those that come before it or are equal to it.
pub open spec fn inserted(order: Seq<int>, keys: Seq<Seq<Seq<char>>>, i: int) -> Seq<int>
    decreases order.len(),
{
    if order.len() == 0 || path_precedes(keys[order.last()], keys[i]) {
        order.push(i)
    } else {
        inserted(order.drop_last(), keys, i).push(order.last())
    }
}

/// The positions of the first `n` keys, in the order of their keys.
pub open spec fn ordered(keys: Seq<Seq<Seq<char>>>, n: nat) -> Seq<int>
    decreases n,
{
    if n == 0 {
        Seq::empty()
    } else {
        inserted(ordered(keys, (n - 1) as nat), keys, n - 1)
    }
}

/// The positions of the keys, in the order of their keys.
pub open spec fn ordering(keys: Seq<Seq<Seq<char>>>) -> Seq<int> {
    ordered(keys, keys.len())
}

// ---------------------------------------------------------------------------
// The order
// ---------------------------------------------------------------------------
/// Of two texts one precedes the other, and both do only where they are equal.
proof fn lemma_precedes_total(a: Seq<char>, b: Seq<char>)
    ensures
        precedes(a, b) || precedes(b, a),
        precedes(a, b) && precedes(b, a) ==> a == b,
    decreases a.len(),
{
    if a.len() == 0 || b.len() == 0 {
        assert(a.len() == 0 && b.len() == 0 ==> a =~= b);
    } else if a[0] == b[0] {
        lemma_precedes_total(a.drop_first(), b.drop_first());
        if a.drop_first() == b.drop_first() {
            assert(a =~= seq![a[0]] + a.drop_first());
            assert(b =~= seq![b[0]] + b.drop_first());
        }
    }
}

proof fn lemma_precedes_transitive(a: Seq<char>, b: Seq<char>, c: Seq<char>)
    requires
        precedes(a, b),
        precedes(b, c),
    ensures
        precedes(a, c),
    decreases a.len(),
{
    if a.len() > 0 && a[0] == b[0] && b[0] == c[0] {
        lemma_precedes_transitive(a.drop_first(), b.drop_first(), c.drop_first());
    }
}

/// Of two paths one precedes the other, and both do only where they are equal.
pub proof fn lemma_path_total(a: Seq<Seq<char>>, b: Seq<Seq<char>>)
    ensures
        path_precedes(a, b) || path_precedes(b, a),
        path_precedes(a, b) && path_precedes(b, a) ==> a == b,
    decreases a.len(),
{
    if a.len() == 0 || b.len() == 0 {
        assert(a.len() == 0 && b.len() == 0 ==> a =~= b);
    } else if a[0] == b[0] {
        lemma_path_total(a.skip(1), b.skip(1));
        if a.skip(1) == b.skip(1) {
            assert(a =~= seq![a[0]] + a.skip(1));
            assert(b =~= seq![b[0]] + b.skip(1));
        }
    } else {
        lemma_precedes_total(a[0], b[0]);
    }
}

/// The order of paths is transitive.
pub proof fn lemma_path_transitive(a: Seq<Seq<char>>, b: Seq<Seq<char>>, c: Seq<Seq<char>>)
    requires
        path_precedes(a, b),
        path_precedes(b, c),
    ensures
        path_precedes(a, c),
    decreases a.len(),
{
    if a.len() > 0 {
        if a[0] == b[0] && b[0] == c[0] {
            lemma_path_transitive(a.skip(1), b.skip(1), c.skip(1));
        } else if a[0] != b[0] && b[0] != c[0] {
            lemma_precedes_transitive(a[0], b[0], c[0]);
            lemma_precedes_total(a[0], b[0]);
        }
    }
}

// ---------------------------------------------------------------------------
// Sorting
// ---------------------------------------------------------------------------
/// Whether the positions are a stable sort of the first `n` keys: each occurs once, the keys do not
/// descend, and equal keys keep their order.
pub open spec fn is_stable_sort(order: Seq<int>, keys: Seq<Seq<Seq<char>>>, n: nat) -> bool {
    &&& order.len() == n
    &&& forall|i: int| 0 <= i < n ==> #[trigger] order.contains(i)
    &&& forall|p: int| 0 <= p < n ==> 0 <= #[trigger] order[p] < n
    &&& forall|p: int, q: int|
        0 <= p < q < n ==> path_precedes(keys[#[trigger] order[p]], keys[#[trigger] order[q]]) && (
        keys[order[p]] == keys[order[q]] ==> order[p] < order[q])
}

/// Where an element is put: the part in front does not come behind it, the part behind comes
/// strictly behind it.
proof fn lemma_inserted(order: Seq<int>, keys: Seq<Seq<Seq<char>>>, i: int, p: int)
    requires
        0 <= p <= order.len(),
        p > 0 ==> path_precedes(keys[order[p - 1]], keys[i]),
        forall|q: int|
            p <= q < order.len() ==> !path_precedes(keys[#[trigger] order[q]], keys[i]),
    ensures
        inserted(order, keys, i) == order.insert(p, i),
    decreases order.len(),
{
    if p == order.len() {
        assert(order.insert(p, i) =~= order.push(i));
    } else {
        assert(!path_precedes(keys[order[order.len() - 1]], keys[i]));
        let front = order.drop_last();
        assert forall|q: int| p <= q < front.len() implies !path_precedes(
            keys[#[trigger] front[q]],
            keys[i],
        ) by {
            assert(front[q] == order[q]);
        }
        lemma_inserted(front, keys, i, p);
        assert(front.insert(p, i).push(order.last()) =~= order.insert(p, i));
    }
}

/// Insertion finds a place.
proof fn lemma_place(order: Seq<int>, keys: Seq<Seq<Seq<char>>>, i: int) -> (p: int)
    ensures
        0 <= p <= order.len(),
        p > 0 ==> path_precedes(keys[order[p - 1]], keys[i]),
        forall|q: int|
            p <= q < order.len() ==> !path_precedes(keys[#[trigger] order[q]], keys[i]),
    decreases order.len(),
{
    if order.len() == 0 || path_precedes(keys[order.last()], keys[i]) {
        order.len() as int
    } else {
        let front = order.drop_last();
        let p = lemma_place(front, keys, i);
        assert forall|q: int| p <= q < order.len() implies !path_precedes(
            keys[#[trigger] order[q]],
            keys[i],
        ) by {
            if q < front.len() {
                assert(front[q] == order[q]);
            }
        }
        p
    }
}

/// Sorting is stable: every position occurs once, the keys do not descend, and equal keys keep
/// their order.
pub proof fn law_sorting_is_stable(keys: Seq<Seq<Seq<char>>>, n: nat)
    requires
        n <= keys.len(),
    ensures
        is_stable_sort(ordered(keys, n), keys, n),
    decreases n,
{
    if n > 0 {
        let m = (n - 1) as nat;
        law_sorting_is_stable(keys, m);
        let before = ordered(keys, m);
        let i = n - 1;
        let p = lemma_place(before, keys, i);
        lemma_inserted(before, keys, i, p);
        let order = ordered(keys, n);
        assert(order == before.insert(p, i));
        assert forall|x: int| 0 <= x < n implies #[trigger] order.contains(x) by {
            if x == i {
                assert(order[p] == x);
            } else {
                assert(before.contains(x));
                let k = choose|k: int| 0 <= k < before.len() && before[k] == x;
                if k < p {
                    assert(order[k] == x);
                } else {
                    assert(order[k + 1] == x);
                }
            }
        }
        assert forall|x: int| 0 <= x < n implies 0 <= #[trigger] order[x] < n by {
            if x < p {
                assert(order[x] == before[x]);
            } else if x > p {
                assert(order[x] == before[x - 1]);
            }
        }
        assert forall|a: int, b: int| 0 <= a < b < n implies path_precedes(
            keys[#[trigger] order[a]],
            keys[#[trigger] order[b]],
        ) && (keys[order[a]] == keys[order[b]] ==> order[a] < order[b]) by {
            if a == p {
                assert(order[b] == before[b - 1]);
                lemma_path_total(keys[before[b - 1]], keys[i]);
            } else if b == p {
                assert(order[a] == before[a]);
                assert(0 <= before[a] < m);
                if a < p - 1 {
                    assert(path_precedes(keys[before[a]], keys[before[p - 1]]));
                    lemma_path_transitive(keys[before[a]], keys[before[p - 1]], keys[i]);
                }
            } else {
                let a2 = if a < p {
                    a
                } else {
                    a - 1
                };
                let b2 = if b < p {
                    b
                } else {
                    b - 1
                };
                assert(order[a] == before[a2] && order[b] == before[b2]);
                assert(path_precedes(keys[before[a2]], keys[before[b2]]));
            }
        }
    }
}

/// Whether path `a` comes before path `b`, or is equal to it.
pub fn path_comes_first(a: &Vec<String>, b: &Vec<String>) -> (r: bool)
    ensures
        r == path_precedes(texts(a@), texts(b@)),
{
    let ghost x = texts(a@);
    let ghost y = texts(b@);
    let mut i: usize = 0;
    assert(x.skip(0) =~= x);
    assert(y.skip(0) =~= y);
    while i < a.len() && i < b.len()
        invariant
            i <= a@.len(),
            i <= b@.len(),
            x == texts(a@),
            y == texts(b@),
            path_precedes(x, y) == path_precedes(x.skip(i as int), y.skip(i as int)),
        decreases a@.len() - i,
    {
        assert(x.skip(i as int).skip(1) =~= x.skip(i + 1));
        assert(y.skip(i as int).skip(1) =~= y.skip(i + 1));
        assert(x.skip(i as int)[0] == a@[i as int]@);
        assert(y.skip(i as int)[0] == b@[i as int]@);
        if !same(&a[i], &b[i]) {
            return comes_first(&a[i], &b[i]);
        }
        i += 1;
    }
    i >= a.len()
}

/// The positions as plain numbers.
pub open spec fn positions(list: Seq<usize>) -> Seq<int> {
    list.map_values(|i: usize| i as int)
}

/// The keys as plain texts.
pub open spec fn path_list(keys: Seq<Vec<String>>) -> Seq<Seq<Seq<char>>> {
    keys.map_values(|k: Vec<String>| texts(k@))
}

/// The positions of the keys, stably sorted.
pub fn sort_order(keys: &Vec<Vec<String>>) -> (r: Vec<usize>)
    ensures
        positions(r@) == ordering(path_list(keys@)),
        r@.len() == keys@.len(),
        forall|i: int| 0 <= i < r@.len() ==> (#[trigger] r@[i]) < keys@.len(),
{
    let ghost all = path_list(keys@);
    let mut order: Vec<usize> = Vec::new();
    let mut n: usize = 0;
    assert(positions(order@) =~= Seq::empty());
    while n < keys.len()
        invariant
            n <= keys@.len(),
            all == path_list(keys@),
            order@.len() == n,
            positions(order@) == ordered(all, n as nat),
            forall|i: int| 0 <= i < order@.len() ==> (#[trigger] order@[i]) < n,
        decreases keys@.len() - n,
    {
        let ghost before = positions(order@);
        let mut p: usize = order.len();
        while p > 0 && !path_comes_first(&keys[order[p - 1]], &keys[n])
            invariant
                p <= order@.len(),
                n < keys@.len(),
                all == path_list(keys@),
                before == positions(order@),
                forall|i: int| 0 <= i < order@.len() ==> (#[trigger] order@[i]) < n,
                forall|q: int|
                    p <= q < order@.len() ==> !path_precedes(
                        all[#[trigger] before[q]],
                        all[n as int],
                    ),
            decreases p,
        {
            assert(before[p - 1] == order@[p - 1]);
            p -= 1;
        }
        proof {
            if p > 0 {
                assert(before[p - 1] == order@[p - 1]);
            }
            lemma_inserted(before, all, n as int, p as int);
        }
        order.insert(p, n);
        assert(positions(order@) =~= before.insert(p as int, n as int));
        n += 1;
    }
    order
}

/// Paths are in order name by name: of two that differ, the first name that differs decides, in the
/// order of texts; and a directory comes before all that stands in it.
pub proof fn law_paths_are_ordered_by_names(a: Seq<Seq<char>>, b: Seq<Seq<char>>, i: int)
    requires
        0 <= i <= a.len(),
        i <= b.len(),
        forall|j: int| 0 <= j < i ==> #[trigger] a[j] == b[j],
        i < a.len() && i < b.len() ==> a[i] != b[i],
    ensures
        i == a.len() ==> path_precedes(a, b),
        i == b.len() && i < a.len() ==> !path_precedes(a, b),
        i < a.len() && i < b.len() ==> path_precedes(a, b) == precedes(a[i], b[i]),
    decreases i,
{
    if i > 0 {
        assert(a[0] == b[0]);
        let x = a.skip(1);
        let y = b.skip(1);
        assert forall|j: int| 0 <= j < i - 1 implies #[trigger] x[j] == y[j] by {
            assert(x[j] == a[j + 1] && y[j] == b[j + 1]);
        }
        law_paths_are_ordered_by_names(x, y, i - 1);
        if i < a.len() && i < b.len() {
            assert(x[i - 1] == a[i] && y[i - 1] == b[i]);
        }
    }
}

} // verus!
