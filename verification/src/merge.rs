//! Lists merged without duplicates, and groups of items ranked by lifetime.
use vstd::prelude::*;

use crate::list::{contains, Item};
use crate::time::Duration;
use crate::Lifetime;

verus! {

/// `list` followed by those items of `more` that did not occur before, each
/// at its first occurrence.
pub open spec fn extend_unique<T>(list: Seq<T>, more: Seq<T>) -> Seq<T>
    decreases more.len(),
{
    if more.len() == 0 {
        list
    } else {
        let before = extend_unique(list, more.drop_last());
        if before.contains(more.last()) {
            before
        } else {
            before.push(more.last())
        }
    }
}

/// The items of a list in the order in which they first occur.
pub open spec fn first_seen<T>(list: Seq<T>) -> Seq<T> {
    extend_unique(Seq::empty(), list)
}

/// Extends a list with items that are not in it yet, in first-seen order.
pub fn extend_dedup<T: Item>(target: &mut Vec<T>, src: Vec<T>)
    ensures
        final(target).deep_view() == extend_unique(old(target).deep_view(), src.deep_view()),
{
    let ghost before = target.deep_view();
    let ghost items = src.deep_view();
    assert(items.take(0) =~= Seq::empty());
    for item in it: src.into_iter()
        invariant
            it.seq() == src@,
            items == src.deep_view(),
            target.deep_view() == extend_unique(before, items.take(it.index() as int)),
    {
        proof {
            let i = it.index() as int;
            assert(items[i] == item.deep_view());
            assert(items.take(i + 1).drop_last() =~= items.take(i));
        }
        let ghost list = target.deep_view();
        if !contains(target, &item) {
            target.push(item);
            assert(target.deep_view() =~= list.push(item.deep_view()));
        }
    }
    assert(items.take(items.len() as int) =~= items);
}

/// Extending a list keeps the list as its beginning, adds every new item and
/// nothing else, and adds no duplicates.
pub proof fn law_extend_unique<T>(list: Seq<T>, more: Seq<T>)
    ensures
        list.is_prefix_of(extend_unique(list, more)),
        forall|x: T|
            #![trigger extend_unique(list, more).contains(x)]
            extend_unique(list, more).contains(x) <==> list.contains(x) || more.contains(x),
        list.no_duplicates() ==> extend_unique(list, more).no_duplicates(),
    decreases more.len(),
{
    let out = extend_unique(list, more);
    if more.len() == 0 {
        assert(list.is_prefix_of(out));
    } else {
        let rest = more.drop_last();
        let before = extend_unique(list, rest);
        law_extend_unique(list, rest);
        assert(more =~= rest.push(more.last()));
        assert forall|x: T| #![trigger out.contains(x)] out.contains(x) <==> list.contains(x)
            || more.contains(x) by {
            if out.contains(x) {
                let i = choose|i: int| 0 <= i < out.len() && out[i] == x;
                if i < before.len() {
                    assert(before[i] == x);
                    assert(before.contains(x));
                    if rest.contains(x) {
                        let j = choose|j: int| 0 <= j < rest.len() && rest[j] == x;
                        assert(more[j] == x);
                    }
                } else {
                    assert(more[more.len() - 1] == x);
                }
            }
            if list.contains(x) || more.contains(x) {
                if more.contains(x) && !list.contains(x) {
                    let j = choose|j: int| 0 <= j < more.len() && more[j] == x;
                    if j < rest.len() {
                        assert(rest[j] == x);
                        assert(rest.contains(x));
                    }
                }
                if x == more.last() && !before.contains(x) {
                    assert(out[before.len() as int] == x);
                } else {
                    assert(before.contains(x));
                    let i = choose|i: int| 0 <= i < before.len() && before[i] == x;
                    assert(out[i] == x);
                }
            }
        }
    }
}

/// Extending by one list after another is extending by both in a row.
pub proof fn law_extend_unique_add<T>(list: Seq<T>, a: Seq<T>, b: Seq<T>)
    ensures
        extend_unique(list, a + b) == extend_unique(extend_unique(list, a), b),
    decreases b.len(),
{
    if b.len() == 0 {
        assert(a + b =~= a);
    } else {
        law_extend_unique_add(list, a, b.drop_last());
        assert((a + b).drop_last() =~= a + b.drop_last());
    }
}

/// Extending a list by items that it has already changes nothing.
pub proof fn law_extend_unique_known<T>(list: Seq<T>, more: Seq<T>)
    requires
        forall|i: int| 0 <= i < more.len() ==> list.contains(#[trigger] more[i]),
    ensures
        extend_unique(list, more) == list,
    decreases more.len(),
{
    if more.len() > 0 {
        law_extend_unique_known(list, more.drop_last());
        assert(list.contains(more[more.len() - 1]));
    }
}

// Groups ranked by lifetime

/// Items that share a lifetime.
pub struct Group<T> {
    pub items: Seq<T>,
    pub lifetime: Duration,
}

/// A ranking with one more group in it, put behind all groups that live at
/// least as long.
pub open spec fn insert_ranked<T>(ranked: Seq<Group<T>>, group: Group<T>) -> Seq<Group<T>>
    decreases ranked.len(),
{
    if ranked.len() == 0 || ranked.last().lifetime.nanos >= group.lifetime.nanos {
        ranked.push(group)
    } else {
        insert_ranked(ranked.drop_last(), group).push(ranked.last())
    }
}

/// Groups by lifetime, longest first; those with equal lifetimes keep their
/// order.
pub open spec fn rank<T>(groups: Seq<Group<T>>) -> Seq<Group<T>>
    decreases groups.len(),
{
    if groups.len() == 0 {
        Seq::empty()
    } else {
        insert_ranked(rank(groups.drop_last()), groups.last())
    }
}

/// The items of all groups, one group after the other.
pub open spec fn items_of<T>(groups: Seq<Group<T>>) -> Seq<T>
    decreases groups.len(),
{
    if groups.len() == 0 {
        Seq::empty()
    } else {
        items_of(groups.drop_last()) + groups.last().items
    }
}

/// The items of all groups without duplicates, items of longer-lived groups
/// first.
pub open spec fn by_lifetime<T>(groups: Seq<Group<T>>) -> Seq<T> {
    first_seen(items_of(rank(groups)))
}

/// Whether no group outlives one before it.
pub open spec fn nonincreasing<T>(groups: Seq<Group<T>>) -> bool {
    forall|i: int, j: int|
        0 <= i <= j < groups.len() ==> groups[i].lifetime.nanos >= groups[j].lifetime.nanos
}

/// The groups with exactly this lifetime, in order.
pub open spec fn with_lifetime<T>(groups: Seq<Group<T>>, lifetime: Duration) -> Seq<Group<T>> {
    groups.filter(|g: Group<T>| g.lifetime == lifetime)
}

proof fn lemma_insert_ranked<T>(ranked: Seq<Group<T>>, group: Group<T>)
    requires
        nonincreasing(ranked),
    ensures
        nonincreasing(insert_ranked(ranked, group)),
        insert_ranked(ranked, group).to_multiset() == ranked.to_multiset().insert(group),
        forall|i: int|
            0 <= i < insert_ranked(ranked, group).len() ==> (#[trigger] insert_ranked(
                ranked,
                group,
            )[i]) == group || ranked.contains(insert_ranked(ranked, group)[i]),
        forall|d: Duration| #[trigger]
            with_lifetime(insert_ranked(ranked, group), d) == with_lifetime(ranked.push(group), d),
    decreases ranked.len(),
{
    let out = insert_ranked(ranked, group);
    broadcast use vstd::seq_lib::group_to_multiset_ensures;

    if ranked.len() == 0 || ranked.last().lifetime.nanos >= group.lifetime.nanos {
        assert forall|i: int, j: int| 0 <= i <= j < out.len() implies out[i].lifetime.nanos
            >= out[j].lifetime.nanos by {
            if j == ranked.len() && i < j {
                assert(ranked[i].lifetime.nanos >= ranked[ranked.len() - 1].lifetime.nanos);
            }
        }
        assert forall|i: int| 0 <= i < out.len() implies #[trigger] out[i] == group
            || ranked.contains(out[i]) by {
            if i < ranked.len() {
                assert(ranked[i] == out[i]);
            }
        }
    } else {
        let rest = ranked.drop_last();
        let last = ranked.last();
        let inner = insert_ranked(rest, group);
        lemma_insert_ranked(rest, group);
        assert(ranked =~= rest.push(last));
        assert forall|i: int| 0 <= i < out.len() implies #[trigger] out[i] == group
            || ranked.contains(out[i]) by {
            if i < inner.len() {
                assert(out[i] == inner[i]);
                if inner[i] != group {
                    let k = choose|k: int| 0 <= k < rest.len() && rest[k] == inner[i];
                    assert(ranked[k] == out[i]);
                }
            } else {
                assert(ranked[ranked.len() - 1] == out[i]);
            }
        }
        assert forall|i: int, j: int| 0 <= i <= j < out.len() implies out[i].lifetime.nanos
            >= out[j].lifetime.nanos by {
            if j == inner.len() && i < j {
                assert(out[i] == inner[i]);
                if inner[i] != group {
                    let k = choose|k: int| 0 <= k < rest.len() && rest[k] == inner[i];
                    assert(ranked[k].lifetime.nanos >= ranked[ranked.len() - 1].lifetime.nanos);
                }
            } else if j < inner.len() {
                assert(out[i] == inner[i]);
                assert(out[j] == inner[j]);
            }
        }
        assert(out.to_multiset() =~= ranked.to_multiset().insert(group));
        assert forall|d: Duration| #[trigger]
            with_lifetime(out, d) == with_lifetime(ranked.push(group), d) by {
            let p = |g: Group<T>| g.lifetime == d;
            assert(with_lifetime(inner, d) == with_lifetime(rest.push(group), d));
            inner.lemma_filter_push(last, p);
            rest.lemma_filter_push(group, p);
            rest.lemma_filter_push(last, p);
            ranked.lemma_filter_push(group, p);
        }
    }
}

/// Ranking keeps every group, orders the groups by lifetime with the longest
/// first, and keeps the order of groups with equal lifetimes.
pub proof fn law_rank<T>(groups: Seq<Group<T>>)
    ensures
        nonincreasing(rank(groups)),
        rank(groups).to_multiset() == groups.to_multiset(),
        forall|d: Duration| #[trigger]
            with_lifetime(rank(groups), d) == with_lifetime(groups, d),
    decreases groups.len(),
{
    if groups.len() > 0 {
        let rest = groups.drop_last();
        let last = groups.last();
        broadcast use vstd::seq_lib::group_to_multiset_ensures;

        law_rank(rest);
        lemma_insert_ranked(rank(rest), last);
        assert(groups =~= rest.push(last));
        assert forall|d: Duration| #[trigger]
            with_lifetime(rank(groups), d) == with_lifetime(groups, d) by {
            let p = |g: Group<T>| g.lifetime == d;
            assert(with_lifetime(rank(rest), d) == with_lifetime(rest, d));
            rank(rest).lemma_filter_push(last, p);
            rest.lemma_filter_push(last, p);
        }
    } else {
        assert(groups =~= rank(groups));
    }
}

/// Whether some group has an item.
pub open spec fn in_some_group<T>(groups: Seq<Group<T>>, item: T) -> bool {
    exists|n: int| 0 <= n < groups.len() && (#[trigger] groups[n]).items.contains(item)
}

proof fn lemma_items_of_members<T>(groups: Seq<Group<T>>, item: T)
    ensures
        items_of(groups).contains(item) <==> in_some_group(groups, item),
    decreases groups.len(),
{
    if groups.len() > 0 {
        let rest = groups.drop_last();
        let last = groups.last();
        let head = items_of(rest);
        let out = items_of(groups);
        lemma_items_of_members(rest, item);
        assert(groups[groups.len() - 1] == last);
        if in_some_group(rest, item) {
            let n = choose|n: int| 0 <= n < rest.len() && (#[trigger] rest[n]).items.contains(item);
            assert(groups[n].items.contains(item));
            let k = choose|k: int| 0 <= k < head.len() && head[k] == item;
            assert(out[k] == item);
        }
        if in_some_group(groups, item) && !in_some_group(rest, item) {
            let n = choose|n: int|
                0 <= n < groups.len() && (#[trigger] groups[n]).items.contains(item);
            if n < rest.len() {
                assert(rest[n].items.contains(item));
            }
            let k = choose|k: int| 0 <= k < last.items.len() && last.items[k] == item;
            assert(out[head.len() + k] == item);
        }
        if out.contains(item) && !head.contains(item) {
            let k = choose|k: int| 0 <= k < out.len() && out[k] == item;
            if k < head.len() {
                assert(head[k] == item);
            }
            assert(last.items[k - head.len()] == item);
        }
    }
}

proof fn lemma_rank_members<T>(groups: Seq<Group<T>>, group: Group<T>)
    ensures
        rank(groups).contains(group) <==> groups.contains(group),
{
    law_rank(groups);
    vstd::seq_lib::to_multiset_contains(rank(groups), group);
    vstd::seq_lib::to_multiset_contains(groups, group);
}

/// Lifetimes influence priority and not membership: every item of every group
/// is there, nothing else, and nothing twice.
pub proof fn law_by_lifetime_members<T>(groups: Seq<Group<T>>)
    ensures
        by_lifetime(groups).no_duplicates(),
        forall|x: T| #[trigger] by_lifetime(groups).contains(x) <==> in_some_group(groups, x),
{
    let ranked = rank(groups);
    law_extend_unique(Seq::<T>::empty(), items_of(ranked));
    assert forall|x: T| #[trigger] by_lifetime(groups).contains(x) <==> in_some_group(
        groups,
        x,
    ) by {
        lemma_items_of_members(ranked, x);
        if in_some_group(ranked, x) {
            let n = choose|n: int|
                0 <= n < ranked.len() && (#[trigger] ranked[n]).items.contains(x);
            lemma_rank_members(groups, ranked[n]);
            let k = choose|k: int| 0 <= k < groups.len() && groups[k] == ranked[n];
            assert(groups[k].items.contains(x));
        }
        if in_some_group(groups, x) {
            let n = choose|n: int|
                0 <= n < groups.len() && (#[trigger] groups[n]).items.contains(x);
            lemma_rank_members(groups, groups[n]);
            let k = choose|k: int| 0 <= k < ranked.len() && ranked[k] == groups[n];
            assert(ranked[k].items.contains(x));
        }
    }
}

proof fn lemma_items_of_split<T>(groups: Seq<Group<T>>, n: int)
    requires
        0 <= n <= groups.len(),
    ensures
        items_of(groups) == items_of(groups.take(n)) + items_of(groups.skip(n)),
    decreases groups.len(),
{
    if n == groups.len() {
        assert(groups.take(n) =~= groups);
        assert(groups.skip(n) =~= Seq::empty());
        assert(items_of(groups) + Seq::<T>::empty() =~= items_of(groups));
    } else {
        let rest = groups.drop_last();
        lemma_items_of_split(rest, n);
        assert(rest.take(n) =~= groups.take(n));
        assert(groups.skip(n).drop_last() =~= rest.skip(n));
        assert(groups.skip(n).last() == groups.last());
        assert(items_of(groups) =~= items_of(groups.take(n)) + items_of(groups.skip(n)));
    }
}

/// An item of a group comes before all items that only shorter-lived groups
/// have.
pub proof fn law_longer_lived_first<T>(groups: Seq<Group<T>>, n: int, i: int, j: int)
    requires
        0 <= n < groups.len(),
        0 <= i < by_lifetime(groups).len(),
        0 <= j < by_lifetime(groups).len(),
        groups[n].items.contains(by_lifetime(groups)[i]),
        forall|k: int|
            0 <= k < groups.len() && (#[trigger] groups[k]).items.contains(by_lifetime(groups)[j])
                ==> groups[k].lifetime.nanos < groups[n].lifetime.nanos,
    ensures
        i < j,
{
    let ranked = rank(groups);
    let out = by_lifetime(groups);
    let (x, y) = (out[i], out[j]);
    law_rank(groups);
    lemma_rank_members(groups, groups[n]);
    let r = choose|r: int| 0 <= r < ranked.len() && ranked[r] == groups[n];
    let head = ranked.take(r + 1);
    let prefix = first_seen(items_of(head));
    lemma_items_of_split(ranked, r + 1);
    law_extend_unique_add(Seq::empty(), items_of(head), items_of(ranked.skip(r + 1)));
    law_extend_unique(prefix, items_of(ranked.skip(r + 1)));
    law_extend_unique(Seq::<T>::empty(), items_of(head));
    law_extend_unique(Seq::<T>::empty(), items_of(ranked));
    lemma_items_of_members(head, x);
    lemma_items_of_members(head, y);
    assert(head[r].items.contains(x));
    assert(prefix.contains(x));
    if in_some_group(head, y) {
        let m = choose|m: int| 0 <= m < head.len() && (#[trigger] head[m]).items.contains(y);
        assert(ranked[m].lifetime.nanos >= ranked[r].lifetime.nanos);
        lemma_rank_members(groups, ranked[m]);
        assert(ranked.contains(ranked[m]));
        let k = choose|k: int| 0 <= k < groups.len() && groups[k] == ranked[m];
        assert(groups[k].items.contains(y));
    }
    assert(!prefix.contains(y));
    let a = choose|a: int| 0 <= a < prefix.len() && prefix[a] == x;
    assert(out[a] == x);
    assert(a == i);
    if j < prefix.len() {
        assert(prefix[j] == y);
    }
}

/// What a list of groups with their lifetimes says.
pub open spec fn groups_of<O: DeepView>(ranked: Seq<(Duration, Vec<O>)>) -> Seq<Group<O::V>> {
    ranked.map_values(
        |g: (Duration, Vec<O>)| Group { items: g.1.deep_view(), lifetime: g.0 },
    )
}

/// Puts a group into a ranking.
fn insert_by_lifetime<O: DeepView>(
    ranked: &mut Vec<(Duration, Vec<O>)>,
    lifetime: Duration,
    items: Vec<O>,
)
    ensures
        groups_of(final(ranked)@) == insert_ranked(
            groups_of(old(ranked)@),
            Group { items: items.deep_view(), lifetime },
        ),
{
    let ghost groups = groups_of(ranked@);
    let ghost group = Group { items: items.deep_view(), lifetime };
    let mut pos: usize = ranked.len();
    assert(groups.take(pos as int) =~= groups);
    assert(insert_ranked(groups.take(pos as int), group) + groups.skip(pos as int)
        =~= insert_ranked(groups, group));
    while pos > 0 && ranked[pos - 1].0.nanos < lifetime.nanos
        invariant
            pos <= ranked@.len(),
            groups == groups_of(ranked@),
            group.lifetime == lifetime,
            insert_ranked(groups.take(pos as int), group) + groups.skip(pos as int)
                == insert_ranked(groups, group),
        decreases pos,
    {
        proof {
            let head = groups.take(pos as int);
            assert(head.drop_last() =~= groups.take(pos - 1));
            assert(insert_ranked(head.drop_last(), group) + groups.skip(pos - 1)
                =~= insert_ranked(head, group) + groups.skip(pos as int));
        }
        pos = pos - 1;
    }
    proof {
        let head = groups.take(pos as int);
        if pos > 0 {
            assert(head.last() == groups[pos - 1]);
        }
        assert(insert_ranked(head, group) == head.push(group));
    }
    ranked.insert(pos, (lifetime, items));
    assert(groups_of(ranked@) =~= groups.take(pos as int).push(group) + groups.skip(pos as int));
}

/// Flattens, ranks and deduplicates items by descending lifetime.
///
/// The groups are ranked by lifetime, longest first and stable; their items
/// follow one another in that order, and of equal items only the first stays.
/// So items of longer-lived groups take precedence, and a lifetime influences
/// priority but not membership.
pub fn flatten_sorted_dedup_by_lifetime<I, O, F>(input: &[I], extract: F) -> (res: Vec<O>) where
    I: Lifetime,
    O: Item,
    F: Fn(&I) -> Vec<O>,

    requires
        forall|i: int| 0 <= i < input@.len() ==> #[trigger] call_requires(extract, (&input@[i],)),
    ensures
        exists|groups: Seq<(Duration, Vec<O>)>|
            {
                &&& groups.len() == input@.len()
                &&& forall|i: int|
                    #![trigger groups[i]]
                    0 <= i < input@.len() ==> groups[i].0 == input@[i].spec_lifetime()
                        && call_ensures(extract, (&input@[i],), groups[i].1)
                &&& res.deep_view() == #[trigger] by_lifetime(groups_of(groups))
            },
{
    let mut ranked: Vec<(Duration, Vec<O>)> = Vec::new();
    let ghost mut groups: Seq<(Duration, Vec<O>)> = Seq::empty();
    let mut i: usize = 0;
    assert(groups_of(ranked@) =~= rank(groups_of(groups)));
    while i < input.len()
        invariant
            i <= input@.len(),
            forall|k: int|
                0 <= k < input@.len() ==> #[trigger] call_requires(extract, (&input@[k],)),
            groups.len() == i,
            forall|k: int|
                #![trigger groups[k]]
                0 <= k < i ==> groups[k].0 == input@[k].spec_lifetime() && call_ensures(
                    extract,
                    (&input@[k],),
                    groups[k].1,
                ),
            groups_of(ranked@) == rank(groups_of(groups)),
        decreases input@.len() - i,
    {
        let lifetime = input[i].lifetime();
        assert(call_requires(extract, (&input@[i as int],)));
        let items = extract(&input[i]);
        proof {
            let before = groups;
            groups = groups.push((lifetime, items));
            assert(groups_of(groups).drop_last() =~= groups_of(before));
        }
        insert_by_lifetime(&mut ranked, lifetime, items);
        i = i + 1;
    }
    let mut res: Vec<O> = Vec::new();
    let ghost all = groups_of(ranked@);
    assert(items_of(all.take(0)) =~= Seq::empty());
    assert(res.deep_view() =~= first_seen(Seq::empty()));
    for group in it: ranked.into_iter()
        invariant
            it.seq() == ranked@,
            all == groups_of(ranked@),
            res.deep_view() == first_seen(items_of(all.take(it.index() as int))),
    {
        proof {
            let k = it.index() as int;
            assert(all.take(k + 1).drop_last() =~= all.take(k));
            assert(all.take(k + 1).last() == all[k]);
            law_extend_unique_add(Seq::empty(), items_of(all.take(k)), all[k].items);
        }
        extend_dedup(&mut res, group.1);
    }
    assert(all.take(all.len() as int) =~= all);
    assert(res.deep_view() == by_lifetime(groups_of(groups)));
    res
}

} // verus!
