//! Association lists: sequences of keyed entries in which no key occurs twice.
//! The store keeps its documents, indexes, buckets and collections in such
//! lists, and its contracts are stated over these functions.

use crate::order::same_text;
use vstd::prelude::*;

verus! {

/// The text of a name, an identifier or a key.
pub type Text = Seq<char>;

/// Some entry of `s` has the key.
pub open spec fn present<V>(s: Seq<(Text, V)>, key: Text) -> bool {
    exists|i: int| 0 <= i < s.len() && (#[trigger] s[i]).0 == key
}

/// The place of an entry with the key.
pub open spec fn at<V>(s: Seq<(Text, V)>, key: Text) -> int {
    choose|i: int| 0 <= i < s.len() && (#[trigger] s[i]).0 == key
}

/// No key occurs twice.
pub open spec fn distinct<V>(s: Seq<(Text, V)>) -> bool {
    forall|i: int, j: int| 0 <= i < j < s.len() ==> (#[trigger] s[i]).0 != (#[trigger] s[j]).0
}

/// What the key stands for.
pub open spec fn lookup<V>(s: Seq<(Text, V)>, key: Text) -> Option<V> {
    if present(s, key) {
        Some(s[at(s, key)].1)
    } else {
        None
    }
}

/// The list in which the key stands for `value`: an entry with the key is
/// replaced where it is, a new one goes to the end.
pub open spec fn put<V>(s: Seq<(Text, V)>, key: Text, value: V) -> Seq<(Text, V)> {
    if present(s, key) {
        s.update(at(s, key), (key, value))
    } else {
        s.push((key, value))
    }
}

/// The list without the entry of the key; the others keep their order.
pub open spec fn del<V>(s: Seq<(Text, V)>, key: Text) -> Seq<(Text, V)> {
    if present(s, key) {
        s.remove(at(s, key))
    } else {
        s
    }
}

/// In a list of distinct keys an entry is found where it stands.
pub proof fn lemma_at<V>(s: Seq<(Text, V)>, key: Text, i: int)
    requires
        distinct(s),
        0 <= i < s.len(),
        s[i].0 == key,
    ensures
        present(s, key),
        at(s, key) == i,
        lookup(s, key) == Some(s[i].1),
{
    let j = at(s, key);
    assert(s[j].0 == key);
    if i < j {
        assert(s[i].0 != s[j].0);
    } else if j < i {
        assert(s[j].0 != s[i].0);
    }
}

/// A key that no entry has stands for nothing.
pub proof fn lemma_absent<V>(s: Seq<(Text, V)>, key: Text)
    requires
        forall|i: int| 0 <= i < s.len() ==> (#[trigger] s[i]).0 != key,
    ensures
        !present(s, key),
        lookup(s, key) is None,
{
}

/// After `put` the key stands for the value and every other key for what it
/// stood for before.
pub proof fn lemma_put<V>(s: Seq<(Text, V)>, key: Text, value: V)
    requires
        distinct(s),
    ensures
        distinct(put(s, key, value)),
        lookup(put(s, key, value), key) == Some(value),
        forall|other: Text| other != key ==> lookup(put(s, key, value), other) == lookup(s, other),
        forall|other: Text|
            present(put(s, key, value), other) <==> (other == key || present(s, other)),
{
    let t = put(s, key, value);
    if present(s, key) {
        let p = at(s, key);
        assert(s[p].0 == key);
        assert forall|i: int, j: int| 0 <= i < j < t.len() implies (#[trigger] t[i]).0 != (
        #[trigger] t[j]).0 by {
            assert(s[i].0 != s[j].0);
        }
        lemma_at(t, key, p);
        assert forall|other: Text| other != key implies lookup(t, other) == lookup(s, other) by {
            lemma_put_other(s, key, value, other);
        }
        assert forall|other: Text| present(t, other) <==> (other == key || present(s, other)) by {
            if other != key {
                lemma_put_other(s, key, value, other);
            }
        }
    } else {
        assert forall|i: int, j: int| 0 <= i < j < t.len() implies (#[trigger] t[i]).0 != (
        #[trigger] t[j]).0 by {
            if j < s.len() {
                assert(s[i].0 != s[j].0);
            } else {
                assert(s[i].0 != key);
            }
        }
        lemma_at(t, key, s.len() as int);
        assert forall|other: Text| other != key implies lookup(t, other) == lookup(s, other) by {
            lemma_put_other(s, key, value, other);
        }
        assert forall|other: Text| present(t, other) <==> (other == key || present(s, other)) by {
            if other != key {
                lemma_put_other(s, key, value, other);
            }
        }
    }
}

/// `put` leaves every other key as it was.
proof fn lemma_put_other<V>(s: Seq<(Text, V)>, key: Text, value: V, other: Text)
    requires
        distinct(s),
        distinct(put(s, key, value)),
        other != key,
    ensures
        present(put(s, key, value), other) == present(s, other),
        lookup(put(s, key, value), other) == lookup(s, other),
{
    let t = put(s, key, value);
    if present(s, other) {
        let i = at(s, other);
        assert(s[i].0 == other);
        if present(s, key) {
            assert(s[at(s, key)].0 == key);
        }
        assert(t[i] == s[i]);
        lemma_at(t, other, i);
    } else if present(t, other) {
        let i = at(t, other);
        assert(t[i].0 == other);
        if present(s, key) {
            assert(s[at(s, key)].0 == key);
            assert(s[i].0 == other);
        } else {
            assert(i < s.len());
            assert(s[i].0 == other);
        }
    }
}

/// After `del` the key stands for nothing and every other key for what it
/// stood for before.
pub proof fn lemma_del<V>(s: Seq<(Text, V)>, key: Text)
    requires
        distinct(s),
    ensures
        distinct(del(s, key)),
        !present(del(s, key), key),
        forall|other: Text| other != key ==> lookup(del(s, key), other) == lookup(s, other),
        forall|other: Text| present(del(s, key), other) <==> (other != key && present(s, other)),
{
    let t = del(s, key);
    if present(s, key) {
        let p = at(s, key);
        assert(s[p].0 == key);
        assert forall|i: int| 0 <= i < t.len() implies #[trigger] t[i] == s[if i < p {
            i
        } else {
            i + 1
        }] by {}
        assert forall|i: int, j: int| 0 <= i < j < t.len() implies (#[trigger] t[i]).0 != (
        #[trigger] t[j]).0 by {
            let a = if i < p { i } else { i + 1 };
            let b = if j < p { j } else { j + 1 };
            assert(s[a].0 != s[b].0);
        }
        assert forall|i: int| 0 <= i < t.len() implies (#[trigger] t[i]).0 != key by {
            let a = if i < p { i } else { i + 1 };
            if a < p {
                assert(s[a].0 != s[p].0);
            } else {
                assert(s[p].0 != s[a].0);
            }
        }
        assert forall|other: Text| other != key implies lookup(t, other) == lookup(s, other)
            && present(t, other) == present(s, other) by {
            if present(s, other) {
                let i = at(s, other);
                assert(s[i].0 == other);
                let a = if i < p { i } else { i - 1 };
                assert(t[a] == s[i]);
                lemma_at(t, other, a);
            } else if present(t, other) {
                let i = at(t, other);
                assert(t[i].0 == other);
                let a = if i < p { i } else { i + 1 };
                assert(s[a].0 == other);
            }
        }
    }
}

/// The place of the first entry with the key, if there is one.
pub fn find<V>(entries: &Vec<(String, V)>, key: &str) -> (place: Option<usize>)
    ensures
        match place {
            Some(i) => i < entries@.len() && entries@[i as int].0@ == key@ && forall|j: int|
                0 <= j < i ==> (#[trigger] entries@[j]).0@ != key@,
            None => forall|j: int| 0 <= j < entries@.len() ==> (#[trigger] entries@[j]).0@ != key@,
        },
{
    let mut i: usize = 0;
    while i < entries.len()
        invariant
            i <= entries@.len(),
            forall|j: int| 0 <= j < i ==> (#[trigger] entries@[j]).0@ != key@,
        decreases entries@.len() - i,
    {
        if same_text(entries[i].0.as_str(), key) {
            return Some(i);
        }
        i += 1;
    }
    None
}

} // verus!
