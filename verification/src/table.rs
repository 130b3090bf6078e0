//! Insertion-ordered tables with unique keys.
use vstd::prelude::*;

verus! {

/// Keys that can be compared and copied.
pub trait TableKey: Copy {
    /// Whether both keys are equal.
    fn same_key(&self, other: &Self) -> (b: bool)
        ensures
            b == (*self == *other),
    ;
}

impl TableKey for u32 {
    fn same_key(&self, other: &Self) -> (b: bool) {
        *self == *other
    }
}

/// Whether an entry with this key is in the table.
pub open spec fn has_key<K, V>(t: Seq<(K, V)>, key: K) -> bool {
    exists|i: int| 0 <= i < t.len() && (#[trigger] t[i]).0 == key
}

/// Whether no key occurs twice.
pub open spec fn unique_keys<K, V>(t: Seq<(K, V)>) -> bool {
    forall|i: int, j: int|
        0 <= i < j < t.len() ==> (#[trigger] t[i]).0 != (#[trigger] t[j]).0
}

/// Where the entry with this key is.
pub open spec fn position<K, V>(t: Seq<(K, V)>, key: K) -> int {
    choose|i: int| 0 <= i < t.len() && (#[trigger] t[i]).0 == key
}

/// The value with this key, if there is one.
pub open spec fn lookup<K, V>(t: Seq<(K, V)>, key: K) -> Option<V> {
    if has_key(t, key) {
        Some(t[position(t, key)].1)
    } else {
        None
    }
}

/// The table with this value at this key: in the place of the value that the
/// key had, or else at the end.
pub open spec fn put<K, V>(t: Seq<(K, V)>, key: K, value: V) -> Seq<(K, V)> {
    if has_key(t, key) {
        t.update(position(t, key), (key, value))
    } else {
        t.push((key, value))
    }
}

/// The table without the entry with this key.
pub open spec fn without<K, V>(t: Seq<(K, V)>, key: K) -> Seq<(K, V)> {
    if has_key(t, key) {
        t.remove(position(t, key))
    } else {
        t
    }
}

/// The keys, in order.
pub open spec fn keys_of<K, V>(t: Seq<(K, V)>) -> Seq<K> {
    t.map_values(|e: (K, V)| e.0)
}

/// A table whose values are taken by what they stand for.
pub open spec fn deep_table<K, V: DeepView>(t: Seq<(K, V)>) -> Seq<(K, V::V)> {
    t.map_values(|e: (K, V)| (e.0, e.1.deep_view()))
}

/// With unique keys, the position of a key is the one place where it occurs.
pub proof fn lemma_position<K, V>(t: Seq<(K, V)>, i: int)
    requires
        unique_keys(t),
        0 <= i < t.len(),
    ensures
        has_key(t, t[i].0),
        position(t, t[i].0) == i,
        lookup(t, t[i].0) == Some(t[i].1),
{
    let p = position(t, t[i].0);
    assert(t[i].0 == t[i].0);
    assert(0 <= p < t.len() && t[p].0 == t[i].0);
}

/// Putting a value changes what is found at its key, and nothing else.
pub proof fn law_put<K, V>(t: Seq<(K, V)>, key: K, value: V)
    requires
        unique_keys(t),
    ensures
        unique_keys(put(t, key, value)),
        lookup(put(t, key, value), key) == Some(value),
        forall|k: K| k != key ==> #[trigger] lookup(put(t, key, value), k) == lookup(t, k),
        forall|k: K| k != key ==> (#[trigger] has_key(put(t, key, value), k) <==> has_key(t, k)),
        has_key(t, key) ==> keys_of(put(t, key, value)) == keys_of(t),
        !has_key(t, key) ==> keys_of(put(t, key, value)) == keys_of(t).push(key),
{
    let out = put(t, key, value);
    if has_key(t, key) {
        let p = position(t, key);
        assert(0 <= p < t.len() && t[p].0 == key);
        assert(keys_of(out) =~= keys_of(t));
        lemma_position(out, p);
    } else {
        assert(keys_of(out) =~= keys_of(t).push(key));
        lemma_position(out, t.len() as int);
    }
    assert forall|k: K| k != key implies (#[trigger] has_key(out, k) <==> has_key(t, k))
        && lookup(out, k) == lookup(t, k) by {
        if has_key(t, k) {
            let i = position(t, k);
            assert(0 <= i < t.len() && t[i].0 == k);
            assert(out[i] == t[i]);
            lemma_position(out, i);
        }
        if has_key(out, k) {
            let i = position(out, k);
            assert(0 <= i < out.len() && out[i].0 == k);
            assert(t[i] == out[i]);
            lemma_position(t, i);
        }
    }
    assert forall|k: K| k != key implies #[trigger] lookup(out, k) == lookup(t, k) by {
        assert(has_key(out, k) <==> has_key(t, k));
    }
}

/// Removing a key leaves nothing at it, and every other key as it was.
pub proof fn law_without<K, V>(t: Seq<(K, V)>, key: K)
    requires
        unique_keys(t),
    ensures
        unique_keys(without(t, key)),
        !has_key(without(t, key), key),
        forall|k: K| k != key ==> #[trigger] lookup(without(t, key), k) == lookup(t, k),
        forall|k: K| k != key ==> (#[trigger] has_key(without(t, key), k) <==> has_key(t, k)),
{
    let out = without(t, key);
    if has_key(t, key) {
        let p = position(t, key);
        assert(0 <= p < t.len() && t[p].0 == key);
        assert forall|k: K| #[trigger] has_key(out, k) implies k != key by {
            let i = position(out, k);
            assert(0 <= i < out.len() && out[i].0 == k);
            if i < p {
                assert(out[i] == t[i]);
            } else {
                assert(out[i] == t[i + 1]);
            }
        }
        assert forall|k: K| k != key implies (#[trigger] has_key(out, k) <==> has_key(t, k))
            && lookup(out, k) == lookup(t, k) by {
            if has_key(t, k) {
                let i = position(t, k);
                assert(0 <= i < t.len() && t[i].0 == k);
                let j = if i < p {
                    i
                } else {
                    i - 1
                };
                assert(out[j] == t[i]);
                lemma_position(out, j);
            }
            if has_key(out, k) {
                let j = position(out, k);
                assert(0 <= j < out.len() && out[j].0 == k);
                let i = if j < p {
                    j
                } else {
                    j + 1
                };
                assert(t[i] == out[j]);
                lemma_position(t, i);
            }
        }
        assert forall|k: K| k != key implies #[trigger] lookup(out, k) == lookup(t, k) by {
            assert(has_key(out, k) <==> has_key(t, k));
        }
    }
}

/// Removing a key undoes putting a value at it where there was none, and
/// otherwise removes what was there before.
pub proof fn lemma_without_put<K, V>(t: Seq<(K, V)>, key: K, value: V)
    requires
        unique_keys(t),
    ensures
        without(put(t, key, value), key) == without(t, key),
{
    let out = put(t, key, value);
    law_put(t, key, value);
    if has_key(t, key) {
        let p = position(t, key);
        assert(0 <= p < t.len() && t[p].0 == key);
        lemma_position(out, p);
        assert(out[p].0 == key);
    } else {
        lemma_position(out, t.len() as int);
    }
    assert(without(out, key) =~= without(t, key));
}

/// Putting the same value again changes nothing.
pub proof fn law_put_again<K, V>(t: Seq<(K, V)>, key: K, value: V)
    requires
        unique_keys(t),
    ensures
        put(put(t, key, value), key, value) == put(t, key, value),
{
    let once = put(t, key, value);
    law_put(t, key, value);
    assert(has_key(once, key));
    let p = position(once, key);
    assert(0 <= p < once.len() && once[p].0 == key);
    assert(once.update(p, (key, value)) =~= once);
}

/// Putting the value that is there already changes nothing.
pub proof fn lemma_put_known<K, V>(t: Seq<(K, V)>, key: K)
    requires
        has_key(t, key),
    ensures
        put(t, key, t[position(t, key)].1) == t,
{
    let p = position(t, key);
    assert(0 <= p < t.len() && t[p].0 == key);
    assert(t.update(p, (key, t[p].1)) =~= t);
}

/// Operations on a table commute with taking its values by what they stand
/// for.
pub proof fn lemma_deep_table<K, V: DeepView>(t: Seq<(K, V)>)
    ensures
        deep_table(t).len() == t.len(),
        forall|k: K| #[trigger] has_key(deep_table(t), k) <==> has_key(t, k),
        unique_keys(deep_table(t)) <==> unique_keys(t),
        unique_keys(t) ==> forall|k: K| #[trigger]
            has_key(t, k) ==> position(deep_table(t), k) == position(t, k),
{
    let d = deep_table(t);
    assert forall|k: K| #[trigger] has_key(d, k) <==> has_key(t, k) by {
        if has_key(t, k) {
            let i = position(t, k);
            assert(0 <= i < t.len() && t[i].0 == k);
            assert(d[i].0 == k);
        }
        if has_key(d, k) {
            let i = position(d, k);
            assert(0 <= i < d.len() && d[i].0 == k);
            assert(t[i].0 == k);
        }
    }
    assert(unique_keys(t) ==> unique_keys(d));
    if unique_keys(d) {
        assert forall|i: int, j: int| 0 <= i < j < t.len() implies (#[trigger] t[i]).0
            != (#[trigger] t[j]).0 by {
            assert(d[i].0 != d[j].0);
        }
    }
    if unique_keys(t) {
        assert forall|k: K| #[trigger] has_key(t, k) implies position(d, k) == position(t, k) by {
            let i = position(t, k);
            assert(0 <= i < t.len() && t[i].0 == k);
            assert(d[i].0 == k);
            lemma_position(d, i);
        }
    }
}

/// Putting commutes with taking values by what they stand for.
pub proof fn lemma_deep_put<K, V: DeepView>(t: Seq<(K, V)>, key: K, value: V)
    requires
        unique_keys(t),
    ensures
        deep_table(put(t, key, value)) == put(deep_table(t), key, value.deep_view()),
{
    lemma_deep_table(t);
    assert(has_key(deep_table(t), key) <==> has_key(t, key));
    assert(deep_table(put(t, key, value)) =~= put(deep_table(t), key, value.deep_view()));
}

/// Removing commutes with taking values by what they stand for.
pub proof fn lemma_deep_without<K, V: DeepView>(t: Seq<(K, V)>, key: K)
    requires
        unique_keys(t),
    ensures
        deep_table(without(t, key)) == without(deep_table(t), key),
{
    lemma_deep_table(t);
    assert(has_key(deep_table(t), key) <==> has_key(t, key));
    if has_key(t, key) {
        let p = position(t, key);
        assert(0 <= p < t.len() && t[p].0 == key);
        assert(position(deep_table(t), key) == p);
    }
    assert(deep_table(without(t, key)) =~= without(deep_table(t), key));
}

/// Looking up commutes with taking values by what they stand for.
pub proof fn lemma_deep_lookup<K, V: DeepView>(t: Seq<(K, V)>, key: K)
    requires
        unique_keys(t),
    ensures
        lookup(deep_table(t), key) == match lookup(t, key) {
            Some(value) => Some(value.deep_view()),
            None => None,
        },
{
    lemma_deep_table(t);
    assert(has_key(deep_table(t), key) <==> has_key(t, key));
    if has_key(t, key) {
        let p = position(t, key);
        assert(0 <= p < t.len() && t[p].0 == key);
    }
}

/// Keeping some entries of a table keeps keys unique, and finds what it kept.
pub proof fn lemma_filter_table<K, V>(t: Seq<(K, V)>, p: spec_fn((K, V)) -> bool)
    requires
        unique_keys(t),
    ensures
        unique_keys(t.filter(p)),
        forall|k: K|
            #![trigger lookup(t.filter(p), k)]
            lookup(t.filter(p), k) == match lookup(t, k) {
                Some(v) if p((k, v)) => Some(v),
                _ => None,
            },
    decreases t.len(),
{
    reveal(Seq::filter);
    let out = t.filter(p);
    if t.len() > 0 {
        let rest = t.drop_last();
        let last = t.last();
        lemma_filter_table(rest, p);
        let kept = rest.filter(p);
        assert(t =~= rest.push(last));
        assert(!has_key(rest, last.0)) by {
            if has_key(rest, last.0) {
                let i = position(rest, last.0);
                assert(0 <= i < rest.len() && rest[i].0 == last.0);
                assert(t[i].0 != t[t.len() - 1].0);
            }
        }
        assert(lookup(rest, last.0) is None);
        assert(!has_key(kept, last.0)) by {
            assert(lookup(kept, last.0) is None);
        }
        assert(t == put(rest, last.0, last.1));
        law_put(rest, last.0, last.1);
        if p(last) {
            assert(out == put(kept, last.0, last.1));
            law_put(kept, last.0, last.1);
        }
        assert forall|k: K|
            #![trigger lookup(out, k)]
            lookup(out, k) == match lookup(t, k) {
                Some(v) if p((k, v)) => Some(v),
                _ => None,
            } by {
            if k != last.0 {
                assert(lookup(t, k) == lookup(rest, k));
                assert(lookup(out, k) == lookup(kept, k));
            }
        }
    }
}

/// An insertion-ordered table.
///
/// Iteration follows the order in which the keys were first inserted, so that
/// everything derived from a table is deterministic.
#[derive(Debug, Clone)]
pub struct Table<K, V> {
    pub entries: Vec<(K, V)>,
}

impl<K, V> View for Table<K, V> {
    type V = Seq<(K, V)>;

    open spec fn view(&self) -> Seq<(K, V)> {
        self.entries@
    }
}

impl<K, V: DeepView> DeepView for Table<K, V> {
    type V = Seq<(K, V::V)>;

    open spec fn deep_view(&self) -> Seq<(K, V::V)> {
        deep_table(self.entries@)
    }
}

impl<K, V> Default for Table<K, V> {
    /// The empty table.
    fn default() -> (res: Self)
        ensures
            res@ == Seq::<(K, V)>::empty(),
    {
        Table { entries: Vec::new() }
    }
}

impl<K: TableKey, V> Table<K, V> {
    /// Whether no key occurs twice.
    pub open spec fn wf(&self) -> bool {
        unique_keys(self@)
    }

    /// Number of entries.
    pub fn len(&self) -> (n: usize)
        ensures
            n == self@.len(),
    {
        self.entries.len()
    }

    /// Whether there are no entries.
    pub fn is_empty(&self) -> (b: bool)
        ensures
            b == (self@.len() == 0),
    {
        self.entries.len() == 0
    }

    /// Index of the entry with this key.
    pub fn find(&self, key: &K) -> (res: Option<usize>)
        requires
            self.wf(),
        ensures
            match res {
                Some(i) => has_key(self@, *key) && i < self@.len() && i == position(self@, *key)
                    && self@[i as int].0 == *key,
                None => !has_key(self@, *key),
            },
    {
        let mut i: usize = 0;
        while i < self.entries.len()
            invariant
                i <= self@.len(),
                self.wf(),
                forall|j: int| 0 <= j < i ==> (#[trigger] self@[j]).0 != *key,
            decreases self@.len() - i,
        {
            if self.entries[i].0.same_key(key) {
                proof {
                    lemma_position(self@, i as int);
                }
                return Some(i);
            }
            i = i + 1;
        }
        None
    }

    /// The value with this key.
    pub fn get(&self, key: &K) -> (res: Option<&V>)
        requires
            self.wf(),
        ensures
            match res {
                Some(v) => lookup(self@, *key) == Some(*v),
                None => lookup(self@, *key) is None,
            },
    {
        match self.find(key) {
            Some(i) => Some(&self.entries[i].1),
            None => None,
        }
    }

    /// The value with this key, for changing it in place.
    pub fn get_mut(&mut self, key: &K) -> (res: Option<&mut V>)
        requires
            old(self).wf(),
        ensures
            match res {
                Some(v) => {
                    &&& lookup(old(self)@, *key) == Some(*v)
                    &&& final(self)@ == put(old(self)@, *key, *final(v))
                },
                None => lookup(old(self)@, *key) is None && final(self)@ == old(self)@,
            },
    {
        match self.find(key) {
            Some(i) => Some(&mut self.entries[i].1),
            None => None,
        }
    }

    /// Puts a value at a key.
    pub fn insert(&mut self, key: K, value: V)
        requires
            old(self).wf(),
        ensures
            final(self)@ == put(old(self)@, key, value),
            final(self).wf(),
    {
        proof {
            law_put(self@, key, value);
        }
        match self.find(&key) {
            Some(i) => {
                self.entries[i] = (key, value);
            },
            None => {
                self.entries.push((key, value));
            },
        }
    }

    /// Removes the entry with this key and returns its value.
    pub fn remove(&mut self, key: &K) -> (res: Option<V>)
        requires
            old(self).wf(),
        ensures
            res == lookup(old(self)@, *key),
            final(self)@ == without(old(self)@, *key),
            final(self).wf(),
    {
        proof {
            law_without(self@, *key);
        }
        match self.find(key) {
            Some(i) => Some(self.entries.remove(i).1),
            None => None,
        }
    }
}

} // verus!
