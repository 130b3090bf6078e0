//! How lists are merged: what they hold, and in which order.
use vstd::prelude::*;

use crate::merge::{
    by_lifetime, extend_unique, first_seen, groups_of, insert_ranked, items_of, law_extend_unique,
    rank, Group,
};
use crate::time::Duration;

verus! {

// Lists without duplicates

/// Extending a list keeps it as it is and appends every item that is not there
/// yet, once, in the order in which the items first come.
pub proof fn law_extended<T>(list: Seq<T>, more: Seq<T>)
    ensures
        ({
            let out = extend_unique(list, more);
            &&& out.len() >= list.len()
            &&& out.take(list.len() as int) == list
            &&& forall|x: T| #[trigger]
                out.contains(x) <==> list.contains(x) || more.contains(x)
            &&& forall|i: int, j: int|
                0 <= i < j < out.len() && list.len() <= j ==> #[trigger] out[i] != #[trigger] out[j]
            &&& forall|i: int, j: int|
                list.len() <= i < j < out.len() ==> {
                    let (x, y) = (#[trigger] out[i], #[trigger] out[j]);
                    exists|k: int|
                        {
                            &&& 0 <= k < more.len()
                            &&& #[trigger] more[k] == x
                            &&& forall|l: int|
                                0 <= l < more.len() && #[trigger] more[l] == y ==> k < l
                        }
                }
        }),
    decreases more.len(),
{
    let out = extend_unique(list, more);
    law_extend_unique(list, more);
    assert(out.take(list.len() as int) =~= list) by {
        assert(list.is_prefix_of(out));
    }
    if more.len() > 0 {
        let rest = more.drop_last();
        let before = extend_unique(list, rest);
        law_extended(list, rest);
        law_extend_unique(list, rest);
        assert forall|i: int, j: int|
            0 <= i < j < out.len() && list.len() <= j implies #[trigger] out[i]
            != #[trigger] out[j] by {
            if j < before.len() {
                assert(before[i] != before[j]);
            } else {
                assert(out[i] == before[i]);
                assert(before.contains(before[i]));
            }
        }
        assert forall|i: int, j: int| list.len() <= i < j < out.len() implies {
            let (x, y) = (#[trigger] out[i], #[trigger] out[j]);
            exists|k: int|
                {
                    &&& 0 <= k < more.len()
                    &&& #[trigger] more[k] == x
                    &&& forall|l: int| 0 <= l < more.len() && #[trigger] more[l] == y ==> k < l
                }
        } by {
            if j < before.len() {
                assert(out[i] == before[i] && out[j] == before[j]);
                let k = choose|k: int|
                    {
                        &&& 0 <= k < rest.len()
                        &&& #[trigger] rest[k] == before[i]
                        &&& forall|l: int|
                            0 <= l < rest.len() && #[trigger] rest[l] == before[j] ==> k < l
                    };
                assert(more[k] == out[i]);
                assert forall|l: int| 0 <= l < more.len() && #[trigger] more[l]
                    == out[j] implies k < l by {
                    if l < rest.len() {
                        assert(rest[l] == before[j]);
                    }
                }
            } else {
                lemma_appended(list, rest, i);
                let k = choose|k: int| 0 <= k < rest.len() && #[trigger] rest[k] == before[i];
                assert(more[k] == out[i]);
                assert forall|l: int| 0 <= l < more.len() && #[trigger] more[l]
                    == out[j] implies k < l by {
                    if l < rest.len() {
                        assert(rest.contains(rest[l]));
                        assert(before.contains(out[j]));
                    }
                }
            }
        }
    }
}

proof fn lemma_appended<T>(list: Seq<T>, more: Seq<T>, i: int)
    requires
        list.len() <= i < extend_unique(list, more).len(),
    ensures
        exists|k: int| 0 <= k < more.len() && #[trigger] more[k] == extend_unique(list, more)[i],
    decreases more.len(),
{
    if more.len() > 0 {
        let rest = more.drop_last();
        let before = extend_unique(list, rest);
        if i < before.len() {
            lemma_appended(list, rest, i);
            let k = choose|k: int| 0 <= k < rest.len() && #[trigger] rest[k] == before[i];
            assert(more[k] == extend_unique(list, more)[i]);
        } else {
            assert(more[more.len() - 1] == extend_unique(list, more)[i]);
        }
    }
}

/// Without duplicates, items stand in the order in which they first come.
pub proof fn law_first_seen<T>(list: Seq<T>)
    ensures
        ({
            let out = first_seen(list);
            &&& forall|x: T| #[trigger] out.contains(x) <==> list.contains(x)
            &&& forall|i: int, j: int|
                0 <= i < j < out.len() ==> #[trigger] out[i] != #[trigger] out[j]
            &&& forall|i: int, j: int|
                0 <= i < j < out.len() ==> {
                    let (x, y) = (#[trigger] out[i], #[trigger] out[j]);
                    exists|k: int|
                        {
                            &&& 0 <= k < list.len()
                            &&& #[trigger] list[k] == x
                            &&& forall|l: int|
                                0 <= l < list.len() && #[trigger] list[l] == y ==> k < l
                        }
                }
        }),
{
    law_extended(Seq::<T>::empty(), list);
}

// Groups

/// Where the items of a group start among the items of all groups.
spec fn start<T>(groups: Seq<Group<T>>, n: int) -> int {
    items_of(groups.take(n)).len() as int
}

proof fn lemma_start<T>(groups: Seq<Group<T>>, n: int)
    requires
        0 <= n < groups.len(),
    ensures
        start(groups, n + 1) == start(groups, n) + groups[n].items.len(),
{
    assert(groups.take(n + 1).drop_last() =~= groups.take(n));
}

proof fn lemma_start_grows<T>(groups: Seq<Group<T>>, m: int, n: int)
    requires
        0 <= m <= n <= groups.len(),
    ensures
        start(groups, m) <= start(groups, n),
    decreases n - m,
{
    if m < n {
        lemma_start_grows(groups, m, n - 1);
        lemma_start(groups, n - 1);
    }
}

/// The items of a group stand in a row from its start on.
proof fn lemma_item_at<T>(groups: Seq<Group<T>>, n: int, a: int)
    requires
        0 <= n < groups.len(),
        0 <= a < groups[n].items.len(),
    ensures
        0 <= start(groups, n) + a < items_of(groups).len(),
        items_of(groups)[start(groups, n) + a] == groups[n].items[a],
    decreases groups.len(),
{
    let rest = groups.drop_last();
    if n == groups.len() - 1 {
        assert(groups.take(n) =~= rest);
    } else {
        lemma_item_at(rest, n, a);
        assert(rest.take(n) =~= groups.take(n));
    }
}

/// Every item belongs to a group.
proof fn lemma_item_from<T>(groups: Seq<Group<T>>, k: int) -> (at: (int, int))
    requires
        0 <= k < items_of(groups).len(),
    ensures
        0 <= at.0 < groups.len(),
        0 <= at.1 < groups[at.0].items.len(),
        k == start(groups, at.0) + at.1,
        items_of(groups)[k] == groups[at.0].items[at.1],
    decreases groups.len(),
{
    let rest = groups.drop_last();
    let n = groups.len() - 1;
    if k < items_of(rest).len() {
        let at = lemma_item_from(rest, k);
        assert(rest.take(at.0) =~= groups.take(at.0));
        at
    } else {
        assert(groups.take(n) =~= rest);
        (n, k - items_of(rest).len())
    }
}

/// The places of the groups in the order of their ranking.
spec fn insert_place<T>(places: Seq<int>, groups: Seq<Group<T>>, n: int) -> Seq<int>
    decreases places.len(),
{
    if places.len() == 0 || groups[places.last()].lifetime.nanos >= groups[n].lifetime.nanos {
        places.push(n)
    } else {
        insert_place(places.drop_last(), groups, n).push(places.last())
    }
}

spec fn places<T>(groups: Seq<Group<T>>, n: int) -> Seq<int>
    decreases n,
{
    if n <= 0 {
        Seq::empty()
    } else {
        insert_place(places(groups, n - 1), groups, n - 1)
    }
}

/// Whether places are below `n`, sorted by lifetime and then by place.
spec fn sorted_places<T>(places: Seq<int>, groups: Seq<Group<T>>, n: int) -> bool {
    &&& forall|r: int| 0 <= r < places.len() ==> 0 <= #[trigger] places[r] < n
    &&& forall|r: int, q: int|
        0 <= r < q < places.len() ==> {
            let (x, y) = (#[trigger] places[r], #[trigger] places[q]);
            groups[x].lifetime.nanos > groups[y].lifetime.nanos || (groups[x].lifetime.nanos
                == groups[y].lifetime.nanos && x < y)
        }
}

proof fn lemma_insert_place<T>(
    places: Seq<int>,
    ranked: Seq<Group<T>>,
    groups: Seq<Group<T>>,
    n: int,
)
    requires
        0 <= n < groups.len(),
        sorted_places(places, groups, n),
        ranked.len() == places.len(),
        forall|r: int| 0 <= r < places.len() ==> #[trigger] ranked[r] == groups[places[r]],
    ensures
        ({
            let out = insert_place(places, groups, n);
            let all = insert_ranked(ranked, groups[n]);
            &&& sorted_places(out, groups, n + 1)
            &&& all.len() == out.len()
            &&& forall|r: int| 0 <= r < out.len() ==> #[trigger] all[r] == groups[out[r]]
            &&& forall|x: int| #[trigger] out.contains(x) <==> x == n || places.contains(x)
        }),
    decreases places.len(),
{
    let out = insert_place(places, groups, n);
    let all = insert_ranked(ranked, groups[n]);
    if places.len() > 0 {
        let last = places.len() - 1;
        assert(ranked[last] == groups[places[last]]);
        assert(ranked.last() == groups[places.last()]);
    }
    if places.len() == 0 || groups[places.last()].lifetime.nanos >= groups[n].lifetime.nanos {
        assert forall|r: int, q: int| 0 <= r < q < out.len() implies {
            let (x, y) = (#[trigger] out[r], #[trigger] out[q]);
            groups[x].lifetime.nanos > groups[y].lifetime.nanos || (groups[x].lifetime.nanos
                == groups[y].lifetime.nanos && x < y)
        } by {
            if q == places.len() {
                assert(out[r] == places[r]);
                if r < places.len() - 1 {
                    let (x, y) = (places[r], places[places.len() - 1]);
                }
            } else {
                assert(out[r] == places[r] && out[q] == places[q]);
            }
        }
        assert forall|x: int| #[trigger] out.contains(x) <==> x == n || places.contains(x) by {
            if places.contains(x) {
                let i = choose|i: int| 0 <= i < places.len() && places[i] == x;
                assert(out[i] == x);
            }
            if x == n {
                assert(out[places.len() as int] == n);
            }
            if out.contains(x) && x != n {
                let i = choose|i: int| 0 <= i < out.len() && out[i] == x;
                assert(places[i] == x);
            }
        }
    } else {
        let head = places.drop_last();
        let inner = insert_place(head, groups, n);
        assert forall|r: int, q: int| 0 <= r < q < head.len() implies {
            let (x, y) = (#[trigger] head[r], #[trigger] head[q]);
            groups[x].lifetime.nanos > groups[y].lifetime.nanos || (groups[x].lifetime.nanos
                == groups[y].lifetime.nanos && x < y)
        } by {
            assert(head[r] == places[r] && head[q] == places[q]);
        }
        assert forall|r: int| 0 <= r < head.len() implies 0 <= #[trigger] head[r] < n by {
            assert(head[r] == places[r]);
        }
        assert forall|r: int| 0 <= r < head.len() implies #[trigger] ranked.drop_last()[r]
            == groups[head[r]] by {
            assert(ranked[r] == groups[places[r]]);
        }
        lemma_insert_place(head, ranked.drop_last(), groups, n);
        assert(out == inner.push(places.last()));
        assert(all == insert_ranked(ranked.drop_last(), groups[n]).push(ranked.last()));
        assert forall|r: int, q: int| 0 <= r < q < out.len() implies {
            let (x, y) = (#[trigger] out[r], #[trigger] out[q]);
            groups[x].lifetime.nanos > groups[y].lifetime.nanos || (groups[x].lifetime.nanos
                == groups[y].lifetime.nanos && x < y)
        } by {
            if q == inner.len() {
                assert(out[r] == inner[r]);
                assert(inner.contains(inner[r]));
                if inner[r] != n {
                    let i = choose|i: int| 0 <= i < head.len() && head[i] == inner[r];
                    assert(places[i] == inner[r]);
                    let (x, y) = (places[i], places[places.len() - 1]);
                }
            } else {
                assert(out[r] == inner[r] && out[q] == inner[q]);
            }
        }
        assert forall|r: int| 0 <= r < out.len() implies 0 <= #[trigger] out[r] < n + 1 by {
            if r < inner.len() {
                assert(out[r] == inner[r]);
            } else {
                assert(places[places.len() - 1] == out[r]);
            }
        }
        assert forall|x: int| #[trigger] out.contains(x) <==> x == n || places.contains(x) by {
            if places.contains(x) {
                let i = choose|i: int| 0 <= i < places.len() && places[i] == x;
                if i < head.len() {
                    assert(head[i] == x);
                    assert(head.contains(x));
                    assert(inner.contains(x));
                    let k = choose|k: int| 0 <= k < inner.len() && inner[k] == x;
                    assert(out[k] == x);
                } else {
                    assert(out[inner.len() as int] == x);
                }
            }
            if x == n {
                assert(inner.contains(n));
                let k = choose|k: int| 0 <= k < inner.len() && inner[k] == n;
                assert(out[k] == n);
            }
            if out.contains(x) && x != n {
                let i = choose|i: int| 0 <= i < out.len() && out[i] == x;
                if i < inner.len() {
                    assert(inner[i] == x);
                    assert(inner.contains(x));
                    let k = choose|k: int| 0 <= k < head.len() && head[k] == x;
                    assert(places[k] == x);
                } else {
                    assert(places[places.len() - 1] == x);
                }
            }
        }
    }
}

proof fn lemma_places<T>(groups: Seq<Group<T>>, n: int)
    requires
        0 <= n <= groups.len(),
    ensures
        ({
            let out = places(groups, n);
            let ranked = rank(groups.take(n));
            &&& sorted_places(out, groups, n)
            &&& ranked.len() == out.len()
            &&& forall|r: int| 0 <= r < out.len() ==> #[trigger] ranked[r] == groups[out[r]]
            &&& forall|x: int| #[trigger] out.contains(x) <==> 0 <= x < n
        }),
    decreases n,
{
    if n > 0 {
        lemma_places(groups, n - 1);
        assert(groups.take(n).drop_last() =~= groups.take(n - 1));
        assert(groups.take(n).last() == groups[n - 1]);
        lemma_insert_place(places(groups, n - 1), rank(groups.take(n - 1)), groups, n - 1);
    } else {
        assert forall|x: int| !#[trigger] places(groups, n).contains(x) by {}
    }
}

/// Items are ranked by the groups that they are in: what a longer-lived group
/// has comes first, of groups that live equally long what the earlier one
/// has, and within a group in its order. Every item is there once, and
/// nothing else.
pub proof fn law_ranked<T>(groups: Seq<Group<T>>)
    ensures
        ({
            let out = by_lifetime(groups);
            &&& forall|x: T| #[trigger]
                out.contains(x) <==> exists|n: int, a: int|
                    0 <= n < groups.len() && 0 <= a < groups[n].items.len()
                        && #[trigger] groups[n].items[a] == x
            &&& forall|i: int, j: int|
                0 <= i < j < out.len() ==> #[trigger] out[i] != #[trigger] out[j]
            &&& forall|i: int, j: int|
                0 <= i < j < out.len() ==> {
                    let (x, y) = (#[trigger] out[i], #[trigger] out[j]);
                    exists|n: int, a: int|
                        {
                            &&& 0 <= n < groups.len()
                            &&& 0 <= a < groups[n].items.len()
                            &&& #[trigger] groups[n].items[a] == x
                            &&& forall|m: int, b: int|
                                {
                                    &&& 0 <= m < groups.len()
                                    &&& 0 <= b < groups[m].items.len()
                                    &&& #[trigger] groups[m].items[b] == y
                                } ==> {
                                    ||| groups[n].lifetime.nanos > groups[m].lifetime.nanos
                                    ||| groups[n].lifetime.nanos == groups[m].lifetime.nanos && (n
                                        < m || (n == m && a < b))
                                }
                        }
                }
        }),
{
    let out = by_lifetime(groups);
    let ranked = rank(groups);
    let order = places(groups, groups.len() as int);
    let all = items_of(ranked);
    assert(groups.take(groups.len() as int) =~= groups);
    lemma_places(groups, groups.len() as int);
    law_first_seen(all);
    assert forall|x: T| #[trigger] out.contains(x) <==> exists|n: int, a: int|
        0 <= n < groups.len() && 0 <= a < groups[n].items.len() && #[trigger] groups[n].items[a]
            == x by {
        if all.contains(x) {
            let k = choose|k: int| 0 <= k < all.len() && all[k] == x;
            let (r, a) = lemma_item_from(ranked, k);
            assert(ranked[r] == groups[order[r]]);
            assert(groups[order[r]].items[a] == x);
        }
        if exists|n: int, a: int|
            0 <= n < groups.len() && 0 <= a < groups[n].items.len()
                && #[trigger] groups[n].items[a] == x {
            let (n, a) = choose|n: int, a: int|
                0 <= n < groups.len() && 0 <= a < groups[n].items.len()
                    && #[trigger] groups[n].items[a] == x;
            assert(order.contains(n));
            let r = choose|r: int| 0 <= r < order.len() && order[r] == n;
            assert(ranked[r] == groups[order[r]]);
            lemma_item_at(ranked, r, a);
            assert(all[start(ranked, r) + a] == x);
            assert(all.contains(x));
        }
    }
    assert forall|i: int, j: int| 0 <= i < j < out.len() implies {
        let (x, y) = (#[trigger] out[i], #[trigger] out[j]);
        exists|n: int, a: int|
            {
                &&& 0 <= n < groups.len()
                &&& 0 <= a < groups[n].items.len()
                &&& #[trigger] groups[n].items[a] == x
                &&& forall|m: int, b: int|
                    {
                        &&& 0 <= m < groups.len()
                        &&& 0 <= b < groups[m].items.len()
                        &&& #[trigger] groups[m].items[b] == y
                    } ==> {
                        ||| groups[n].lifetime.nanos > groups[m].lifetime.nanos
                        ||| groups[n].lifetime.nanos == groups[m].lifetime.nanos && (n < m || (n
                            == m && a < b))
                    }
            }
    } by {
        assert(out[i] != out[j]);
        let k = choose|k: int|
            {
                &&& 0 <= k < all.len()
                &&& #[trigger] all[k] == out[i]
                &&& forall|l: int| 0 <= l < all.len() && #[trigger] all[l] == out[j] ==> k < l
            };
        let (r, a) = lemma_item_from(ranked, k);
        assert(ranked[r] == groups[order[r]]);
        let n = order[r];
        assert(groups[n].items[a] == out[i]);
        assert forall|m: int, b: int|
            {
                &&& 0 <= m < groups.len()
                &&& 0 <= b < groups[m].items.len()
                &&& #[trigger] groups[m].items[b] == out[j]
            } implies {
            ||| groups[n].lifetime.nanos > groups[m].lifetime.nanos
            ||| groups[n].lifetime.nanos == groups[m].lifetime.nanos && (n < m || (n == m && a
                < b))
        } by {
            assert(order.contains(m));
            let q = choose|q: int| 0 <= q < order.len() && order[q] == m;
            assert(ranked[q] == groups[order[q]]);
            lemma_item_at(ranked, q, b);
            let l = start(ranked, q) + b;
            assert(all[l] == out[j]);
            assert(k < l);
            if q < r {
                lemma_start(ranked, q);
                lemma_start_grows(ranked, q + 1, r);
            }
            if r < q {
                let (x, y) = (order[r], order[q]);
                assert(groups[x].lifetime.nanos > groups[y].lifetime.nanos || (
                groups[x].lifetime.nanos == groups[y].lifetime.nanos && x < y));
            }
        }
    }
}

/// A list of groups with their lifetimes says what its parts say.
pub proof fn law_groups_of<O: DeepView>(ranked: Seq<(Duration, Vec<O>)>)
    ensures
        groups_of(ranked).len() == ranked.len(),
        forall|i: int|
            0 <= i < ranked.len() ==> (#[trigger] groups_of(ranked)[i]).lifetime == ranked[i].0
                && groups_of(ranked)[i].items == ranked[i].1.deep_view(),
{
}

} // verus!
