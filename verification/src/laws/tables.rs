//! What tables hold, entry by entry.
use vstd::prelude::*;

use crate::table::{
    has_key, law_put, law_without, lemma_position, lookup, position, put, unique_keys, without,
};

verus! {

/// Looking up a key finds the one entry that has it, if there is one.
pub proof fn law_lookup<K, V>(t: Seq<(K, V)>, key: K)
    requires
        unique_keys(t),
    ensures
        forall|v: V| lookup(t, key) == Some(v) <==> #[trigger] t.contains((key, v)),
        lookup(t, key) is None <==> forall|i: int| 0 <= i < t.len() ==> (#[trigger] t[i]).0 != key,
        forall|i: int, j: int| 0 <= i < j < t.len() ==> (#[trigger] t[i]).0 != (#[trigger] t[j]).0,
{
    assert forall|v: V| lookup(t, key) == Some(v) <==> #[trigger] t.contains((key, v)) by {
        if t.contains((key, v)) {
            let i = choose|i: int| 0 <= i < t.len() && t[i] == (key, v);
            lemma_position(t, i);
        }
        if lookup(t, key) == Some(v) {
            let i = position(t, key);
            assert(0 <= i < t.len() && t[i].0 == key);
            assert(t[i] == (key, v));
        }
    }
}

/// Putting a value leaves it as the one entry of its key, in the place of the
/// earlier one or at the end, and leaves the other entries where they are.
pub proof fn law_put_entries<K, V>(t: Seq<(K, V)>, key: K, value: V)
    requires
        unique_keys(t),
    ensures
        forall|k: K, v: V|
            #![trigger put(t, key, value).contains((k, v))]
            put(t, key, value).contains((k, v)) <==> if k == key {
                v == value
            } else {
                t.contains((k, v))
            },
        forall|i: int|
            0 <= i < t.len() && (#[trigger] t[i]).0 == key ==> put(t, key, value) == t.update(
                i,
                (key, value),
            ),
        (forall|i: int| 0 <= i < t.len() ==> (#[trigger] t[i]).0 != key) ==> put(t, key, value)
            == t.push((key, value)),
{
    let out = put(t, key, value);
    law_put(t, key, value);
    assert forall|i: int| 0 <= i < t.len() && (#[trigger] t[i]).0 == key implies out == t.update(
        i,
        (key, value),
    ) by {
        lemma_position(t, i);
    }
    assert forall|k: K, v: V|
        #![trigger out.contains((k, v))]
        out.contains((k, v)) <==> if k == key {
            v == value
        } else {
            t.contains((k, v))
        } by {
        law_lookup(t, k);
        law_lookup(out, k);
        assert(lookup(out, k) == Some(v) <==> out.contains((k, v)));
        assert(lookup(t, k) == Some(v) <==> t.contains((k, v)));
    }
}

/// Removing a key removes its entry and keeps the others in order.
pub proof fn law_without_entries<K, V>(t: Seq<(K, V)>, key: K)
    requires
        unique_keys(t),
    ensures
        forall|k: K, v: V|
            #![trigger without(t, key).contains((k, v))]
            without(t, key).contains((k, v)) <==> k != key && t.contains((k, v)),
        without(t, key) == t.filter(|e: (K, V)| e.0 != key),
{
    let out = without(t, key);
    law_without(t, key);
    assert forall|k: K, v: V|
        #![trigger out.contains((k, v))]
        out.contains((k, v)) <==> k != key && t.contains((k, v)) by {
        law_lookup(t, k);
        law_lookup(out, k);
        assert(lookup(out, k) == Some(v) <==> out.contains((k, v)));
        assert(lookup(t, k) == Some(v) <==> t.contains((k, v)));
    }
    lemma_without_filter(t, key, |e: (K, V)| e.0 != key);
}

/// Removing a key is keeping the entries with other keys.
pub proof fn lemma_without_filter<K, V>(t: Seq<(K, V)>, key: K, p: spec_fn((K, V)) -> bool)
    requires
        unique_keys(t),
        forall|e: (K, V)| #[trigger] p(e) == (e.0 != key),
    ensures
        without(t, key) == t.filter(p),
{
    let out = without(t, key);
    if has_key(t, key) {
        let i = position(t, key);
        assert(0 <= i < t.len() && t[i].0 == key);
        let (a, b) = (t.take(i), t.skip(i + 1));
        assert(t =~= a.push(t[i]) + b);
        assert(out =~= a + b);
        Seq::filter_distributes_over_add(a.push(t[i]), b, p);
        a.lemma_filter_push(t[i], p);
        assert forall|k: int| 0 <= k < a.len() implies p(#[trigger] a[k]) by {
            assert(t[k].0 != t[i].0);
        }
        assert forall|k: int| 0 <= k < b.len() implies p(#[trigger] b[k]) by {
            assert(t[i].0 != t[i + 1 + k].0);
        }
        crate::list::lemma_filter_all(a, p);
        crate::list::lemma_filter_all(b, p);
    } else {
        assert forall|k: int| 0 <= k < t.len() implies p(#[trigger] t[k]) by {}
        crate::list::lemma_filter_all(t, p);
    }
}

} // verus!
