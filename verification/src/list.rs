//! Lists of values that are compared and copied by what they stand for.
use vstd::prelude::*;

use crate::address::Ipv6Addr;
use crate::PrefixInfo;

verus! {

/// Values that can be copied by what they stand for.
pub trait Duplicate: DeepView + Sized {
    /// A second value that stands for the same thing.
    fn duplicate(&self) -> (copy: Self)
        ensures
            copy.deep_view() == self.deep_view(),
    ;
}

/// Values that can also be told apart by what they stand for.
pub trait Item: Duplicate {
    /// Whether both values stand for the same thing.
    fn same(&self, other: &Self) -> (b: bool)
        ensures
            b == (self.deep_view() == other.deep_view()),
    ;
}

impl Duplicate for u32 {
    fn duplicate(&self) -> (copy: Self) {
        *self
    }
}

impl Item for u32 {
    fn same(&self, other: &Self) -> (b: bool) {
        *self == *other
    }
}

impl Duplicate for Ipv6Addr {
    fn duplicate(&self) -> (copy: Self) {
        *self
    }
}

impl Item for Ipv6Addr {
    fn same(&self, other: &Self) -> (b: bool) {
        *self == *other
    }
}

impl Duplicate for PrefixInfo {
    fn duplicate(&self) -> (copy: Self) {
        *self
    }
}

impl Item for PrefixInfo {
    fn same(&self, other: &Self) -> (b: bool) {
        *self == *other
    }
}

impl Duplicate for String {
    fn duplicate(&self) -> (copy: Self) {
        self.clone()
    }
}

impl Item for String {
    fn same(&self, other: &Self) -> (b: bool) {
        *self == *other
    }
}

/// Whether an item is in a list.
pub fn contains<T: Item>(list: &Vec<T>, item: &T) -> (found: bool)
    ensures
        found == list.deep_view().contains(item.deep_view()),
{
    let mut i: usize = 0;
    while i < list.len()
        invariant
            i <= list@.len(),
            forall|j: int|
                0 <= j < i ==> (#[trigger] list.deep_view()[j]) != item.deep_view(),
        decreases list@.len() - i,
    {
        if list[i].same(item) {
            assert(list.deep_view()[i as int] == item.deep_view());
            return true;
        }
        i = i + 1;
    }
    false
}

/// Copies a list item by item.
pub fn duplicate_all<T: Duplicate>(list: &[T]) -> (copy: Vec<T>)
    ensures
        copy.deep_view() == list.deep_view(),
{
    let mut copy: Vec<T> = Vec::new();
    let mut i: usize = 0;
    while i < list.len()
        invariant
            i <= list@.len(),
            copy@.len() == i,
            forall|j: int|
                0 <= j < i ==> (#[trigger] copy@[j]).deep_view() == list@[j].deep_view(),
        decreases list@.len() - i,
    {
        copy.push(list[i].duplicate());
        i = i + 1;
    }
    assert(copy.deep_view() =~= list.deep_view());
    copy
}

/// Whether two lists stand for the same.
pub fn same_list<T: Item>(a: &Vec<T>, b: &Vec<T>) -> (same: bool)
    ensures
        same == (a.deep_view() == b.deep_view()),
{
    if a.len() != b.len() {
        assert(a.deep_view().len() != b.deep_view().len());
        return false;
    }
    let mut i: usize = 0;
    while i < a.len()
        invariant
            i <= a@.len(),
            a@.len() == b@.len(),
            forall|j: int| 0 <= j < i ==> (#[trigger] a.deep_view()[j]) == b.deep_view()[j],
        decreases a@.len() - i,
    {
        if !a[i].same(&b[i]) {
            assert(a.deep_view()[i as int] != b.deep_view()[i as int]);
            return false;
        }
        i = i + 1;
    }
    assert(a.deep_view() =~= b.deep_view());
    true
}

/// Keeps the items for which `keep` holds, in order.
pub(crate) fn retain<T, F: Fn(&T) -> bool>(
    list: &mut Vec<T>,
    keep: F,
    Ghost(kept): Ghost<spec_fn(T) -> bool>,
)
    requires
        forall|item: &T| #[trigger] call_requires(keep, (item,)),
        forall|item: &T, b: bool| call_ensures(keep, (item,), b) ==> b == kept(*item),
    ensures
        final(list)@ == old(list)@.filter(kept),
{
    let ghost items = list@;
    let mut all: Vec<T> = Vec::new();
    std::mem::swap(&mut all, list);
    proof {
        reveal(Seq::filter);
    }
    assert(items.take(0).filter(kept) =~= Seq::empty());
    for item in it: all.into_iter()
        invariant
            it.seq() == items,
            forall|item: &T| #[trigger] call_requires(keep, (item,)),
            forall|item: &T, b: bool| call_ensures(keep, (item,), b) ==> b == kept(*item),
            list@ == items.take(it.index() as int).filter(kept),
    {
        proof {
            let i = it.index() as int;
            assert(items.take(i + 1) =~= items.take(i).push(items[i]));
            items.take(i).lemma_filter_push(items[i], kept);
        }
        if keep(&item) {
            list.push(item);
        }
    }
    assert(items.take(items.len() as int) =~= items);
}

/// Filtering and mapping commute where the predicates agree along the map.
pub proof fn lemma_filter_map<A, B>(
    s: Seq<A>,
    f: spec_fn(A) -> B,
    p: spec_fn(A) -> bool,
    q: spec_fn(B) -> bool,
)
    requires
        forall|i: int| 0 <= i < s.len() ==> p(#[trigger] s[i]) == q(f(s[i])),
    ensures
        s.filter(p).map_values(f) == s.map_values(f).filter(q),
    decreases s.len(),
{
    reveal(Seq::filter);
    if s.len() > 0 {
        let rest = s.drop_last();
        lemma_filter_map(rest, f, p, q);
        assert(s.map_values(f).drop_last() =~= rest.map_values(f));
        assert(s[s.len() - 1] == s.last());
        if p(s.last()) {
            assert(s.filter(p).map_values(f) =~= rest.filter(p).map_values(f).push(f(s.last())));
        }
    } else {
        assert(s.filter(p).map_values(f) =~= s.map_values(f).filter(q));
    }
}

/// Filtering by what holds of every item keeps them all.
pub proof fn lemma_filter_all<A>(s: Seq<A>, p: spec_fn(A) -> bool)
    requires
        forall|i: int| 0 <= i < s.len() ==> p(#[trigger] s[i]),
    ensures
        s.filter(p) == s,
    decreases s.len(),
{
    reveal(Seq::filter);
    if s.len() > 0 {
        lemma_filter_all(s.drop_last(), p);
        assert(p(s[s.len() - 1]));
        assert(s.filter(p) =~= s);
    }
}

} // verus!
