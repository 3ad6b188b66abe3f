//! A secondary index: for one field, the identifiers of the documents that
//! hold each value of it.

use crate::assoc::at;
use crate::assoc::distinct;
use crate::assoc::lemma_at;
use crate::assoc::lookup;
use crate::assoc::present;
use crate::assoc::Text;
use crate::order::lemma_text_lt_irreflexive;
use crate::order::lemma_text_lt_total;
use crate::order::lemma_text_lt_transitive;
use crate::order::Rank;
use crate::order::rank;
use crate::order::same_text;
use crate::order::text_lt;
use vstd::prelude::*;

verus! {

/// The buckets come in the strict order of their keys.
pub open spec fn sorted<V>(s: Seq<(Text, V)>) -> bool {
    forall|i: int, j: int|
        0 <= i < j < s.len() ==> text_lt((#[trigger] s[i]).0, (#[trigger] s[j]).0)
}

/// No identifier occurs twice.
pub open spec fn unique(ids: Seq<Text>) -> bool {
    forall|i: int, j: int| 0 <= i < j < ids.len() ==> ids[i] != ids[j]
}

/// `p` is where a bucket of the key goes: behind all smaller keys and before
/// all larger ones.
pub open spec fn is_slot<V>(s: Seq<(Text, V)>, key: Text, p: int) -> bool {
    &&& 0 <= p <= s.len()
    &&& forall|i: int| 0 <= i < p ==> text_lt((#[trigger] s[i]).0, key)
    &&& forall|i: int| p <= i < s.len() ==> text_lt(key, (#[trigger] s[i]).0)
}

/// The place at which a bucket of a new key is entered.
pub open spec fn slot<V>(s: Seq<(Text, V)>, key: Text) -> int {
    choose|p: int| is_slot(s, key, p)
}

/// The identifiers without `id`.
pub open spec fn without(ids: Seq<Text>, id: Text) -> Seq<Text> {
    if ids.contains(id) {
        ids.remove(ids.index_of(id))
    } else {
        ids
    }
}

/// The mathematical value of an `Index`: the field it is on, and its buckets
/// in the order of their keys, each with its identifiers in the order in which
/// they were entered.
pub struct IndexModel {
    pub field: Text,
    pub buckets: Seq<(Text, Seq<Text>)>,
}

impl IndexModel {
    /// An index on `field` without buckets.
    pub open spec fn empty(field: Text) -> IndexModel {
        IndexModel { field, buckets: Seq::empty() }
    }

    /// Keys ascend strictly, and no bucket holds an identifier twice.
    pub open spec fn inv(self) -> bool {
        &&& sorted(self.buckets)
        &&& forall|b: int| 0 <= b < self.buckets.len() ==> unique((#[trigger] self.buckets[b]).1)
    }

    /// The identifiers under `key`, none if there is no such bucket.
    pub open spec fn bucket(self, key: Text) -> Seq<Text> {
        match lookup(self.buckets, key) {
            Some(ids) => ids,
            None => Seq::empty(),
        }
    }

    /// The index after `id` is entered under `key`: at the end of the bucket if
    /// it is not in it yet, in a new bucket if the key has none.
    pub open spec fn add(self, key: Text, id: Text) -> IndexModel {
        if present(self.buckets, key) {
            let b = at(self.buckets, key);
            if self.buckets[b].1.contains(id) {
                self
            } else {
                IndexModel {
                    field: self.field,
                    buckets: self.buckets.update(b, (key, self.buckets[b].1.push(id))),
                }
            }
        } else {
            IndexModel {
                field: self.field,
                buckets: self.buckets.insert(slot(self.buckets, key), (key, seq![id])),
            }
        }
    }

    /// The index after `id` is taken out of the bucket of `key`. The bucket
    /// stays, even if it is left empty.
    pub open spec fn remove(self, key: Text, id: Text) -> IndexModel {
        if present(self.buckets, key) {
            let b = at(self.buckets, key);
            IndexModel {
                field: self.field,
                buckets: self.buckets.update(b, (key, without(self.buckets[b].1, id))),
            }
        } else {
            self
        }
    }
}

/// Sorted keys are distinct.
pub proof fn lemma_sorted_distinct<V>(s: Seq<(Text, V)>)
    requires
        sorted(s),
    ensures
        distinct(s),
{
    assert forall|i: int, j: int| 0 <= i < j < s.len() implies (#[trigger] s[i]).0 != (
    #[trigger] s[j]).0 by {
        lemma_text_lt_irreflexive(s[i].0);
    }
}

/// A sorted list has exactly one slot for a key that it does not hold.
pub proof fn lemma_slot<V>(s: Seq<(Text, V)>, key: Text, p: int)
    requires
        sorted(s),
        is_slot(s, key, p),
    ensures
        slot(s, key) == p,
        !present(s, key),
{
    let q = slot(s, key);
    assert(is_slot(s, key, q));
    if q < p {
        lemma_text_lt_transitive(key, s[q].0, key);
        lemma_text_lt_irreflexive(key);
    } else if p < q {
        lemma_text_lt_transitive(key, s[p].0, key);
        lemma_text_lt_irreflexive(key);
    }
    if present(s, key) {
        let i = at(s, key);
        lemma_text_lt_irreflexive(key);
        assert(s[i].0 == key);
    }
}

/// A sorted list has a slot for every key that it does not hold.
pub proof fn lemma_slot_exists<V>(s: Seq<(Text, V)>, key: Text)
    requires
        sorted(s),
        !present(s, key),
    ensures
        is_slot(s, key, slot(s, key)),
    decreases s.len(),
{
    if s.len() == 0 {
        assert(is_slot(s, key, 0));
    } else {
        let front = s.drop_last();
        assert forall|i: int, j: int| 0 <= i < j < front.len() implies text_lt(
            (#[trigger] front[i]).0,
            (#[trigger] front[j]).0,
        ) by {
            assert(text_lt(s[i].0, s[j].0));
        }
        if present(front, key) {
            assert(s[at(front, key)].0 == key);
        }
        lemma_slot_exists(front, key);
        let p = slot(front, key);
        let last = s.len() - 1;
        assert(s[last].0 != key);
        lemma_text_lt_total(s[last].0, key);
        if text_lt(s[last].0, key) {
            assert forall|i: int| 0 <= i < s.len() implies text_lt((#[trigger] s[i]).0, key) by {
                if i < last {
                    lemma_text_lt_transitive(s[i].0, s[last].0, key);
                }
            }
            assert(is_slot(s, key, s.len() as int));
        } else {
            assert forall|i: int| 0 <= i < p implies text_lt((#[trigger] s[i]).0, key) by {
                assert(text_lt(front[i].0, key));
            }
            assert forall|i: int| p <= i < s.len() implies text_lt(key, (#[trigger] s[i]).0) by {
                if i < last {
                    assert(text_lt(key, front[i].0));
                }
            }
            assert(is_slot(s, key, p));
        }
    }
}

/// Entering a key at its slot keeps the list sorted.
pub proof fn lemma_insert_sorted<V>(s: Seq<(Text, V)>, key: Text, value: V, p: int)
    requires
        sorted(s),
        is_slot(s, key, p),
    ensures
        sorted(s.insert(p, (key, value))),
{
    let t = s.insert(p, (key, value));
    assert forall|i: int, j: int| 0 <= i < j < t.len() implies text_lt(
        (#[trigger] t[i]).0,
        (#[trigger] t[j]).0,
    ) by {
        let a = if i < p { i } else { i - 1 };
        let b = if j < p { j } else { j - 1 };
        if i == p {
            assert(text_lt(key, s[b].0));
        } else if j == p {
            assert(text_lt(s[a].0, key));
        } else {
            assert(text_lt(s[a].0, s[b].0));
        }
    }
}

/// Taking an identifier out of a bucket that holds none twice leaves a bucket
/// that holds none twice and not that one; the others stay.
pub proof fn lemma_without(ids: Seq<Text>, id: Text)
    requires
        unique(ids),
    ensures
        unique(without(ids, id)),
        !without(ids, id).contains(id),
        forall|other: Text| other != id ==> without(ids, id).contains(other) == ids.contains(other),
{
    let rest = without(ids, id);
    if ids.contains(id) {
        let p = ids.index_of(id);
        assert(ids[p] == id);
        assert forall|i: int| 0 <= i < rest.len() implies #[trigger] rest[i] == ids[if i < p {
            i
        } else {
            i + 1
        }] by {}
        assert forall|i: int, j: int| 0 <= i < j < rest.len() implies rest[i] != rest[j] by {
            let a = if i < p { i } else { i + 1 };
            let b = if j < p { j } else { j + 1 };
            assert(ids[a] != ids[b]);
        }
        assert forall|i: int| 0 <= i < rest.len() implies rest[i] != id by {
            let a = if i < p { i } else { i + 1 };
            if a < p {
                assert(ids[a] != ids[p]);
            } else {
                assert(ids[p] != ids[a]);
            }
        }
        assert forall|other: Text| other != id implies rest.contains(other) == ids.contains(
            other,
        ) by {
            if ids.contains(other) {
                let i = ids.index_of(other);
                assert(ids[i] == other);
                let a = if i < p { i } else { i - 1 };
                assert(rest[a] == other);
            } else if rest.contains(other) {
                let i = rest.index_of(other);
                assert(rest[i] == other);
                let a = if i < p { i } else { i + 1 };
                assert(ids[a] == other);
            }
        }
    }
}

/// Entering an identifier keeps an index well formed.
pub proof fn lemma_add_inv(index: IndexModel, key: Text, id: Text)
    requires
        index.inv(),
    ensures
        index.add(key, id).inv(),
        index.add(key, id).field == index.field,
        index.add(key, id).bucket(key).contains(id),
{
    let s = index.buckets;
    let t = index.add(key, id).buckets;
    lemma_sorted_distinct(s);
    if present(s, key) {
        let b = at(s, key);
        assert(s[b].0 == key);
        lemma_at(s, key, b);
        if s[b].1.contains(id) {
        } else {
            let ids = s[b].1.push(id);
            assert(ids[ids.len() - 1] == id);
            assert forall|i: int, j: int| 0 <= i < j < t.len() implies text_lt(
                (#[trigger] t[i]).0,
                (#[trigger] t[j]).0,
            ) by {
                assert(text_lt(s[i].0, s[j].0));
            }
            assert forall|c: int| 0 <= c < t.len() implies unique((#[trigger] t[c]).1) by {
                assert(unique(s[c].1));
                if c == b {
                    assert forall|i: int, j: int| 0 <= i < j < ids.len() implies ids[i]
                        != ids[j] by {
                        if j == ids.len() - 1 {
                            assert(s[b].1[i] != id);
                        }
                    }
                }
            }
            lemma_sorted_distinct(t);
            lemma_at(t, key, b);
        }
    } else {
        lemma_slot_exists(s, key);
        let p = slot(s, key);
        lemma_insert_sorted(s, key, seq![id], p);
        assert forall|c: int| 0 <= c < t.len() implies unique((#[trigger] t[c]).1) by {
            if c < p {
                assert(unique(s[c].1));
            } else if c > p {
                assert(unique(s[c - 1].1));
            }
        }
        lemma_sorted_distinct(t);
        lemma_at(t, key, p);
        assert(seq![id][0] == id);
    }
}

/// Taking an identifier out keeps an index well formed.
pub proof fn lemma_remove_inv(index: IndexModel, key: Text, id: Text)
    requires
        index.inv(),
    ensures
        index.remove(key, id).inv(),
        index.remove(key, id).field == index.field,
        !index.remove(key, id).bucket(key).contains(id),
{
    let s = index.buckets;
    let t = index.remove(key, id).buckets;
    lemma_sorted_distinct(s);
    if present(s, key) {
        let b = at(s, key);
        assert(s[b].0 == key);
        lemma_without(s[b].1, id);
        assert forall|i: int, j: int| 0 <= i < j < t.len() implies text_lt(
            (#[trigger] t[i]).0,
            (#[trigger] t[j]).0,
        ) by {
            assert(text_lt(s[i].0, s[j].0));
        }
        assert forall|c: int| 0 <= c < t.len() implies unique((#[trigger] t[c]).1) by {
            assert(unique(s[c].1));
        }
        lemma_sorted_distinct(t);
        lemma_at(t, key, b);
    }
}

/// After `add`, the buckets hold what they held, and `id` under `key`.
pub proof fn lemma_add_holds(index: IndexModel, key: Text, id: Text)
    requires
        index.inv(),
    ensures
        forall|k: Text, x: Text|
            #[trigger] index.add(key, id).bucket(k).contains(x) <==> (index.bucket(k).contains(x)
                || (k == key && x == id)),
{
    let s = index.buckets;
    let after = index.add(key, id);
    let t = after.buckets;
    lemma_add_inv(index, key, id);
    lemma_sorted_distinct(s);
    lemma_sorted_distinct(t);
    assert forall|k: Text, x: Text|
        #[trigger] after.bucket(k).contains(x) <==> (index.bucket(k).contains(x) || (k == key && x
            == id)) by {
        if present(s, key) {
            let b = at(s, key);
            assert(s[b].0 == key);
            lemma_at(s, key, b);
            if !s[b].1.contains(id) {
                let ids = s[b].1.push(id);
                lemma_at(t, key, b);
                if k == key {
                    if ids.contains(x) {
                        let i = ids.index_of(x);
                        assert(ids[i] == x);
                        if i < s[b].1.len() {
                            assert(s[b].1[i] == x);
                        }
                    }
                    if s[b].1.contains(x) {
                        let i = s[b].1.index_of(x);
                        assert(ids[i] == x);
                    }
                    assert(ids[ids.len() - 1] == id);
                } else {
                    lemma_same_elsewhere(s, t, b, k);
                }
            }
        } else {
            lemma_slot_exists(s, key);
            let p = slot(s, key);
            lemma_at(t, key, p);
            if k == key {
                assert(seq![id][0] == id);
            } else {
                if present(s, k) {
                    let c = at(s, k);
                    assert(s[c].0 == k);
                    let d = if c < p { c } else { c + 1 };
                    assert(t[d] == s[c]);
                    lemma_at(t, k, d);
                } else if present(t, k) {
                    let d = at(t, k);
                    assert(t[d].0 == k);
                    let c = if d < p { d } else { d - 1 };
                    assert(s[c].0 == k);
                }
            }
        }
    }
}

/// Two lists of distinct keys that differ in one entry only, whose key they
/// share, agree on every other key.
proof fn lemma_same_elsewhere<V>(s: Seq<(Text, V)>, t: Seq<(Text, V)>, b: int, k: Text)
    requires
        distinct(s),
        distinct(t),
        0 <= b < s.len(),
        t.len() == s.len(),
        t[b].0 == s[b].0,
        forall|c: int| 0 <= c < s.len() && c != b ==> t[c] == s[c],
        k != s[b].0,
    ensures
        lookup(t, k) == lookup(s, k),
{
    if present(s, k) {
        let c = at(s, k);
        assert(s[c].0 == k);
        assert(t[c] == s[c]);
        lemma_at(t, k, c);
    } else if present(t, k) {
        let c = at(t, k);
        assert(t[c].0 == k);
        assert(s[c].0 == k);
    }
}

/// After `remove`, the buckets hold what they held but for `id` under `key`.
pub proof fn lemma_remove_holds(index: IndexModel, key: Text, id: Text)
    requires
        index.inv(),
    ensures
        forall|k: Text, x: Text|
            #[trigger] index.remove(key, id).bucket(k).contains(x) <==> (index.bucket(k).contains(
                x,
            ) && !(k == key && x == id)),
{
    let s = index.buckets;
    let after = index.remove(key, id);
    let t = after.buckets;
    lemma_remove_inv(index, key, id);
    lemma_sorted_distinct(s);
    lemma_sorted_distinct(t);
    assert forall|k: Text, x: Text|
        #[trigger] after.bucket(k).contains(x) <==> (index.bucket(k).contains(x) && !(k == key
            && x == id)) by {
        if present(s, key) {
            let b = at(s, key);
            assert(s[b].0 == key);
            lemma_at(s, key, b);
            lemma_at(t, key, b);
            lemma_without(s[b].1, id);
            if k != key {
                lemma_same_elsewhere(s, t, b, k);
            }
        }
    }
}

/// An index over one field of the documents of a collection.
pub struct Index {
    key: String,
    data: Vec<(String, Vec<String>)>,
}

/// The identifiers of a bucket as texts.
pub open spec fn ids_view(ids: Seq<String>) -> Seq<Text> {
    Seq::new(ids.len(), |i: int| ids[i]@)
}

/// The buckets as keys with their identifiers.
pub open spec fn buckets_view(data: Seq<(String, Vec<String>)>) -> Seq<(Text, Seq<Text>)> {
    Seq::new(data.len(), |b: int| (data[b].0@, ids_view(data[b].1@)))
}

impl View for Index {
    type V = IndexModel;

    closed spec fn view(&self) -> IndexModel {
        IndexModel { field: self.key@, buckets: buckets_view(self.data@) }
    }
}

impl Index {
    /// The index is well formed.
    pub open spec fn wf(&self) -> bool {
        self@.inv()
    }

    /// An empty index on the field `key`.
    pub fn new(key: String) -> (index: Index)
        ensures
            index.wf(),
            index@ == IndexModel::empty(key@),
    {
        let index = Index { key, data: Vec::new() };
        proof {
            assert(index@.buckets =~= Seq::empty());
        }
        index
    }

    /// The field that the index is on.
    pub fn field(&self) -> (field: &String)
        ensures
            field@ == self@.field,
    {
        &self.key
    }

    /// The number of buckets.
    pub fn bucket_count(&self) -> (n: usize)
        ensures
            n == self@.buckets.len(),
    {
        self.data.len()
    }

    /// All buckets: the keys in ascending order, each with its identifiers in
    /// the order in which they were entered.
    pub fn buckets(&self) -> (buckets: Vec<(String, Vec<String>)>)
        ensures
            buckets_view(buckets@) == self@.buckets,
    {
        let mut buckets: Vec<(String, Vec<String>)> = Vec::new();
        let mut b: usize = 0;
        while b < self.data.len()
            invariant
                b <= self.data@.len(),
                buckets@.len() == b,
                forall|c: int|
                    0 <= c < b ==> buckets@[c].0@ == self.data@[c].0@ && ids_view(buckets@[c].1@)
                        == ids_view(self.data@[c].1@),
            decreases self.data@.len() - b,
        {
            let ids = &self.data[b].1;
            let mut copy: Vec<String> = Vec::new();
            let mut i: usize = 0;
            while i < ids.len()
                invariant
                    i <= ids@.len(),
                    copy@.len() == i,
                    forall|j: int| 0 <= j < i ==> copy@[j]@ == ids@[j]@,
                decreases ids@.len() - i,
            {
                copy.push(ids[i].clone());
                i += 1;
            }
            proof {
                assert(ids_view(copy@) =~= ids_view(ids@));
            }
            buckets.push((self.data[b].0.clone(), copy));
            b += 1;
        }
        proof {
            assert(buckets_view(buckets@) =~= self@.buckets);
        }
        buckets
    }

    /// The keys of the buckets, in ascending order.
    pub fn keys(&self) -> (keys: Vec<String>)
        requires
            self.wf(),
        ensures
            keys@.len() == self@.buckets.len(),
            forall|b: int| 0 <= b < keys@.len() ==> keys@[b]@ == self@.buckets[b].0,
            forall|a: int, b: int| 0 <= a < b < keys@.len() ==> text_lt(keys@[a]@, keys@[b]@),
    {
        let mut keys: Vec<String> = Vec::new();
        let mut b: usize = 0;
        while b < self.data.len()
            invariant
                b <= self.data@.len(),
                keys@.len() == b,
                forall|c: int| 0 <= c < b ==> keys@[c]@ == self.data@[c].0@,
            decreases self.data@.len() - b,
        {
            keys.push(self.data[b].0.clone());
            b += 1;
        }
        proof {
            assert forall|a: int, b: int| 0 <= a < b < keys@.len() implies text_lt(
                keys@[a]@,
                keys@[b]@,
            ) by {
                assert(text_lt(self@.buckets[a].0, self@.buckets[b].0));
            }
        }
        keys
    }

    /// Where the bucket of `key` stands, or else where it would go.
    fn locate(&self, key: &str) -> (place: (bool, usize))
        requires
            self.wf(),
        ensures
            place.0 ==> place.1 < self@.buckets.len() && self@.buckets[place.1 as int].0 == key@,
            place.0 == present(self@.buckets, key@),
            place.0 ==> at(self@.buckets, key@) == place.1,
            !place.0 ==> is_slot(self@.buckets, key@, place.1 as int),
    {
        let ghost s = self@.buckets;
        proof {
            lemma_sorted_distinct(s);
        }
        let mut i: usize = 0;
        while i < self.data.len()
            invariant
                s == self@.buckets,
                s.len() == self.data@.len(),
                sorted(s),
                distinct(s),
                i <= s.len(),
                forall|j: int| 0 <= j < i ==> text_lt((#[trigger] s[j]).0, key@),
            decreases s.len() - i,
        {
            assert(s[i as int].0 == self.data@[i as int].0@);
            match rank(self.data[i].0.as_str(), key) {
                Rank::Before => {},
                Rank::Same => {
                    proof {
                        lemma_at(s, key@, i as int);
                    }
                    return (true, i);
                },
                Rank::After => {
                    proof {
                        assert forall|j: int| i <= j < s.len() implies text_lt(
                            key@,
                            (#[trigger] s[j]).0,
                        ) by {
                            if i < j {
                                assert(text_lt(s[i as int].0, s[j].0));
                                lemma_text_lt_transitive(key@, s[i as int].0, s[j].0);
                            }
                        }
                        lemma_slot(s, key@, i as int);
                    }
                    return (false, i);
                },
            }
            i += 1;
        }
        proof {
            lemma_slot(s, key@, i as int);
        }
        (false, i)
    }

    /// Enters `id` under `key`.
    pub fn add(&mut self, key: &str, id: &str)
        requires
            old(self).wf(),
        ensures
            final(self).wf(),
            final(self)@ == old(self)@.add(key@, id@),
    {
        let ghost before = self@;
        proof {
            lemma_add_inv(before, key@, id@);
        }
        let (found, b) = self.locate(key);
        if found {
            let place = position(&self.data[b].1, id);
            proof {
                if let Some(p) = place {
                    assert(before.buckets[b as int].1[p as int] == id@);
                }
            }
            if place.is_none() {
                self.data[b].1.push(id.to_owned());
                proof {
                    assert(self@.buckets =~= before.add(key@, id@).buckets) by {
                        assert(self@.buckets[b as int].1 =~= before.buckets[b as int].1.push(id@));
                        assert forall|c: int|
                            0 <= c < self@.buckets.len() && c != b implies self@.buckets[c]
                            == before.buckets[c] by {
                            assert(self.data@[c] == old(self).data@[c]);
                        }
                    }
                }
            }
        } else {
            let mut ids: Vec<String> = Vec::new();
            ids.push(id.to_owned());
            self.data.insert(b, (key.to_owned(), ids));
            proof {
                lemma_slot(before.buckets, key@, b as int);
                assert(ids_view(ids@) =~= seq![id@]);
                let expected = before.buckets.insert(b as int, (key@, seq![id@]));
                assert forall|c: int| 0 <= c < expected.len() implies self@.buckets[c]
                    == expected[c] by {
                    if c < b {
                        assert(self.data@[c] == old(self).data@[c]);
                    } else if c > b {
                        assert(self.data@[c] == old(self).data@[c - 1]);
                    }
                }
                assert(self@.buckets =~= expected);
            }
        }
    }

    /// Takes `id` out of the bucket of `key`.
    pub fn remove(&mut self, key: &str, id: &str)
        requires
            old(self).wf(),
        ensures
            final(self).wf(),
            final(self)@ == old(self)@.remove(key@, id@),
    {
        let ghost before = self@;
        proof {
            lemma_remove_inv(before, key@, id@);
        }
        let (found, b) = self.locate(key);
        if found {
            let ghost ids = before.buckets[b as int].1;
            assert(unique(ids));
            match position(&self.data[b].1, id) {
                Some(p) => {
                    proof {
                        assert(ids[p as int] == id@);
                        assert(ids.contains(id@));
                        let q = ids.index_of(id@);
                        assert(ids[q] == id@);
                        if q < p {
                            assert(ids[q] != ids[p as int]);
                        } else if p < q {
                            assert(ids[p as int] != ids[q]);
                        }
                    }
                    let _ = self.data[b].1.remove(p);
                    proof {
                        assert(self@.buckets[b as int].1 =~= without(ids, id@));
                        assert forall|c: int|
                            0 <= c < self@.buckets.len() && c != b implies self@.buckets[c]
                            == before.buckets[c] by {
                            assert(self.data@[c] == old(self).data@[c]);
                        }
                        assert(self@.buckets =~= before.remove(key@, id@).buckets);
                    }
                },
                None => {
                    proof {
                        if ids.contains(id@) {
                            let q = ids.index_of(id@);
                            assert(ids[q] == id@);
                        }
                        assert(self@.buckets =~= before.remove(key@, id@).buckets);
                    }
                },
            }
        }
    }

    /// The identifiers under `key`, in the order in which they were entered.
    pub fn bucket(&self, key: &str) -> (ids: Vec<String>)
        requires
            self.wf(),
        ensures
            ids_view(ids@) == self@.bucket(key@),
    {
        let (found, b) = self.locate(key);
        let mut out: Vec<String> = Vec::new();
        if found {
            let ids = &self.data[b].1;
            let mut i: usize = 0;
            while i < ids.len()
                invariant
                    i <= ids@.len(),
                    out@.len() == i,
                    forall|j: int| 0 <= j < i ==> out@[j]@ == ids@[j]@,
                decreases ids@.len() - i,
            {
                out.push(ids[i].clone());
                i += 1;
            }
            proof {
                assert(ids_view(out@) =~= ids_view(ids@));
            }
        } else {
            proof {
                assert(ids_view(out@) =~= Seq::empty());
            }
        }
        out
    }
}

/// The place of `id` among `ids`, if it is there.
fn position(ids: &Vec<String>, id: &str) -> (place: Option<usize>)
    ensures
        match place {
            Some(p) => p < ids@.len() && ids@[p as int]@ == id@,
            None => !ids_view(ids@).contains(id@),
        },
{
    let mut i: usize = 0;
    while i < ids.len()
        invariant
            i <= ids@.len(),
            forall|j: int| 0 <= j < i ==> ids@[j]@ != id@,
        decreases ids@.len() - i,
    {
        if same_text(ids[i].as_str(), id) {
            return Some(i);
        }
        i += 1;
    }
    proof {
        if ids_view(ids@).contains(id@) {
            let j = choose|j: int| 0 <= j < ids_view(ids@).len() && ids_view(ids@)[j] == id@;
            assert(ids@[j]@ == id@);
        }
    }
    None
}

} // verus!
