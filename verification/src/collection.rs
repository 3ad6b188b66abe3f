//! A collection: documents under identifiers, the indexes over them, the path
//! of the log if one is kept, and the latency ring.

use crate::assoc::at;
use crate::assoc::del;
use crate::assoc::distinct;
use crate::assoc::find;
use crate::assoc::lemma_absent;
use crate::assoc::lemma_at;
use crate::assoc::lemma_del;
use crate::assoc::lemma_put;
use crate::assoc::lookup;
use crate::assoc::present;
use crate::assoc::put;
use crate::assoc::Text;
use crate::codec::json_text;
use crate::codec::to_text;
use crate::error::StoreError;
use crate::index::buckets_view;
use crate::index::ids_view;
use crate::index::Index;
use crate::index::IndexModel;
use crate::index::lemma_add_holds;
use crate::index::lemma_add_inv;
use crate::index::lemma_remove_holds;
use crate::index::lemma_remove_inv;
use crate::json::Json;
use crate::json::JsonValue;
use crate::json::members_view;
use crate::latency::LatencyRing;
use crate::latency::RING_CAPACITY;
use crate::latency::ring_push;
use crate::log::tombstone;
use crate::log::tombstone_record;
use vstd::prelude::*;

verus! {

/// The key under which documents without the indexed field are entered.
pub open spec fn sentinel() -> Text {
    "$$null"@
}

/// The key of a document in an index on `field`: the text that the document
/// holds there, or the sentinel if it holds none.
pub open spec fn index_key(doc: JsonValue, field: Text) -> Text {
    match doc.text_at(field) {
        Some(text) => text,
        None => sentinel(),
    }
}

/// Every identifier in the index is that of a document, and stands under the
/// key of that document.
pub open spec fn sound(index: IndexModel, docs: Seq<(Text, JsonValue)>) -> bool {
    forall|key: Text, id: Text| #[trigger]
        index.bucket(key).contains(id) ==> present(docs, id) && index_key(
            lookup(docs, id)->0,
            index.field,
        ) == key
}

/// Every document stands in the index, under its key.
pub open spec fn complete(index: IndexModel, docs: Seq<(Text, JsonValue)>) -> bool {
    forall|i: int|
        0 <= i < docs.len() ==> index.bucket(
            index_key((#[trigger] docs[i]).1, index.field),
        ).contains(docs[i].0)
}

/// The index after the document `doc` is stored under `id`, where `prev` is
/// what was stored there before: the identifier leaves the bucket of the old
/// document and enters that of the new one.
pub open spec fn enter(index: IndexModel, prev: Option<JsonValue>, id: Text, doc: JsonValue)
    -> IndexModel {
    let cleared = match prev {
        Some(old) => index.remove(index_key(old, index.field), id),
        None => index,
    };
    cleared.add(index_key(doc, index.field), id)
}

/// The index after the document `prev` under `id` is deleted.
pub open spec fn leave(index: IndexModel, prev: JsonValue, id: Text) -> IndexModel {
    index.remove(index_key(prev, index.field), id)
}

/// `enter` on every index.
pub open spec fn enter_all(
    indexes: Seq<(Text, IndexModel)>,
    prev: Option<JsonValue>,
    id: Text,
    doc: JsonValue,
) -> Seq<(Text, IndexModel)> {
    Seq::new(indexes.len(), |x: int| (indexes[x].0, enter(indexes[x].1, prev, id, doc)))
}

/// `leave` on every index.
pub open spec fn leave_all(indexes: Seq<(Text, IndexModel)>, prev: JsonValue, id: Text) -> Seq<
    (Text, IndexModel),
> {
    Seq::new(indexes.len(), |x: int| (indexes[x].0, leave(indexes[x].1, prev, id)))
}

/// The documents that the identifiers stand for, in the order of the
/// identifiers.
pub open spec fn fetch(docs: Seq<(Text, JsonValue)>, ids: Seq<Text>) -> Seq<JsonValue> {
    Seq::new(ids.len(), |i: int| lookup(docs, ids[i])->0)
}

/// The documents that the identifiers stand for, with null for an identifier
/// that stands for none.
pub open spec fn fetch_or_null(docs: Seq<(Text, JsonValue)>, ids: Seq<Text>) -> Seq<JsonValue> {
    Seq::new(
        ids.len(),
        |i: int|
            match lookup(docs, ids[i]) {
                Some(doc) => doc,
                None => JsonValue::Null,
            },
    )
}

/// The second components of a list of entries.
pub open spec fn values<V>(s: Seq<(Text, V)>) -> Seq<V> {
    Seq::new(s.len(), |i: int| s[i].1)
}

/// The mathematical value of a `Collection`.
pub struct CollectionModel {
    pub name: Text,
    /// The documents with their identifiers, in the order in which the
    /// identifiers were first stored.
    pub docs: Seq<(Text, JsonValue)>,
    /// The path of the log, if the collection keeps one.
    pub file: Option<Text>,
    /// The indexes with their names, in the order in which they were declared.
    pub indexes: Seq<(Text, IndexModel)>,
    /// The latency samples, oldest first.
    pub times: Seq<(u64, u64)>,
}

impl CollectionModel {
    /// A collection without documents, indexes or samples.
    pub open spec fn empty(name: Text, file: Option<Text>) -> CollectionModel {
        CollectionModel {
            name,
            docs: Seq::empty(),
            file,
            indexes: Seq::empty(),
            times: Seq::empty(),
        }
    }

    /// No identifier and no index name occurs twice; every index is well
    /// formed and holds only identifiers of documents, each under the key of
    /// its document; the ring is within its capacity.
    pub open spec fn inv(self) -> bool {
        &&& distinct(self.docs)
        &&& distinct(self.indexes)
        &&& forall|x: int|
            0 <= x < self.indexes.len() ==> (#[trigger] self.indexes[x]).1.inv() && sound(
                self.indexes[x].1,
                self.docs,
            )
        &&& self.times.len() <= RING_CAPACITY
    }

    /// The document under `id`.
    pub open spec fn get(self, id: Text) -> Option<JsonValue> {
        lookup(self.docs, id)
    }

    /// The collection after `doc` is stored under `id`.
    pub open spec fn insert(self, id: Text, doc: JsonValue) -> CollectionModel {
        CollectionModel {
            docs: put(self.docs, id, doc),
            indexes: enter_all(self.indexes, self.get(id), id, doc),
            ..self
        }
    }

    /// The collection after the document under `id` is deleted; the same
    /// collection if there is none.
    pub open spec fn remove(self, id: Text) -> CollectionModel {
        match self.get(id) {
            Some(prev) => CollectionModel {
                docs: del(self.docs, id),
                indexes: leave_all(self.indexes, prev, id),
                ..self
            },
            None => self,
        }
    }

    /// The collection after an empty index `name` on `field` is declared. An
    /// index of that name is replaced.
    pub open spec fn declare(self, name: Text, field: Text) -> CollectionModel {
        CollectionModel { indexes: put(self.indexes, name, IndexModel::empty(field)), ..self }
    }

    /// The documents whose identifiers the index `name` holds under `key`, in
    /// the order of the bucket; `None` if there is no such index.
    pub open spec fn query(self, name: Text, key: Text) -> Option<Seq<JsonValue>> {
        match lookup(self.indexes, name) {
            Some(index) => Some(fetch(self.docs, index.bucket(key))),
            None => None,
        }
    }

    /// The collection after a latency sample is recorded.
    pub open spec fn record(self, sample: (u64, u64)) -> CollectionModel {
        CollectionModel { times: ring_push(self.times, sample), ..self }
    }

    /// All documents, in the order of the collection.
    pub open spec fn documents(self) -> Seq<JsonValue> {
        values(self.docs)
    }

    /// The lines of a compacted log: the text of every document, in the order
    /// of the collection.
    pub open spec fn compacted(self) -> Seq<Text> {
        Seq::new(self.docs.len(), |i: int| json_text(self.docs[i].1))
    }
}

/// Storing a document keeps an index sound.
pub proof fn lemma_enter_sound(
    index: IndexModel,
    docs: Seq<(Text, JsonValue)>,
    id: Text,
    doc: JsonValue,
)
    requires
        distinct(docs),
        index.inv(),
        sound(index, docs),
    ensures
        enter(index, lookup(docs, id), id, doc).inv(),
        enter(index, lookup(docs, id), id, doc).field == index.field,
        sound(enter(index, lookup(docs, id), id, doc), put(docs, id, doc)),
        enter(index, lookup(docs, id), id, doc).bucket(index_key(doc, index.field)).contains(id),
        forall|key: Text|
            key != index_key(doc, index.field) ==> !(#[trigger] enter(
                index,
                lookup(docs, id),
                id,
                doc,
            ).bucket(key)).contains(id),
        forall|key: Text, other: Text|
            other != id ==> (#[trigger] enter(index, lookup(docs, id), id, doc).bucket(
                key,
            ).contains(other)) == index.bucket(key).contains(other),
{
    let prev = lookup(docs, id);
    let new_key = index_key(doc, index.field);
    let cleared = match prev {
        Some(old) => index.remove(index_key(old, index.field), id),
        None => index,
    };
    let after = enter(index, prev, id, doc);
    lemma_put(docs, id, doc);
    match prev {
        Some(old) => {
            lemma_remove_inv(index, index_key(old, index.field), id);
            lemma_remove_holds(index, index_key(old, index.field), id);
        },
        None => {},
    }
    lemma_add_inv(cleared, new_key, id);
    lemma_add_holds(cleared, new_key, id);
    assert forall|key: Text| !(#[trigger] cleared.bucket(key)).contains(id) by {
        if cleared.bucket(key).contains(id) {
            assert(index.bucket(key).contains(id));
        }
    }
    assert forall|key: Text| key != new_key implies !(#[trigger] after.bucket(key)).contains(
        id,
    ) by {
        assert(!cleared.bucket(key).contains(id));
    }
    assert forall|key: Text, other: Text| other != id implies (#[trigger] after.bucket(
        key,
    ).contains(other)) == index.bucket(key).contains(other) by {
        assert(after.bucket(key).contains(other) == cleared.bucket(key).contains(other));
        match prev {
            Some(old) => {
                assert(cleared.bucket(key).contains(other) == index.bucket(key).contains(other));
            },
            None => {},
        }
    }
    assert forall|key: Text, other: Text| #[trigger]
        after.bucket(key).contains(other) implies present(put(docs, id, doc), other) && index_key(
        lookup(put(docs, id, doc), other)->0,
        after.field,
    ) == key by {
        if other == id {
            if key != new_key {
                assert(!after.bucket(key).contains(id));
            }
        } else {
            assert(index.bucket(key).contains(other));
        }
    }
}

/// Deleting a document keeps an index sound, and takes the identifier out
/// of it.
pub proof fn lemma_leave_sound(index: IndexModel, docs: Seq<(Text, JsonValue)>, id: Text)
    requires
        distinct(docs),
        index.inv(),
        sound(index, docs),
        present(docs, id),
    ensures
        leave(index, lookup(docs, id)->0, id).inv(),
        leave(index, lookup(docs, id)->0, id).field == index.field,
        sound(leave(index, lookup(docs, id)->0, id), del(docs, id)),
        forall|key: Text|
            !(#[trigger] leave(index, lookup(docs, id)->0, id).bucket(key)).contains(id),
        forall|key: Text, other: Text|
            other != id ==> (#[trigger] leave(index, lookup(docs, id)->0, id).bucket(
                key,
            ).contains(other)) == index.bucket(key).contains(other),
{
    let prev = lookup(docs, id)->0;
    let old_key = index_key(prev, index.field);
    let after = leave(index, prev, id);
    lemma_del(docs, id);
    lemma_remove_inv(index, old_key, id);
    lemma_remove_holds(index, old_key, id);
    assert forall|key: Text| !(#[trigger] after.bucket(key)).contains(id) by {
        if after.bucket(key).contains(id) {
            assert(index.bucket(key).contains(id));
        }
    }
    assert forall|key: Text, other: Text| other != id implies (#[trigger] after.bucket(
        key,
    ).contains(other)) == index.bucket(key).contains(other) by {}
    assert forall|key: Text, other: Text| #[trigger]
        after.bucket(key).contains(other) implies present(del(docs, id), other) && index_key(
        lookup(del(docs, id), other)->0,
        after.field,
    ) == key by {
        assert(index.bucket(key).contains(other));
    }
}

/// Two lists with the same names in the same places have the same names.
pub proof fn lemma_names_kept<V>(before: Seq<(Text, V)>, after: Seq<(Text, V)>, name: Text)
    requires
        after.len() == before.len(),
        forall|x: int| 0 <= x < before.len() ==> (#[trigger] after[x]).0 == before[x].0,
    ensures
        present(after, name) == present(before, name),
{
    if present(before, name) {
        let x = at(before, name);
        assert(after[x].0 == name);
    }
    if present(after, name) {
        let x = at(after, name);
        assert(after[x].0 == name);
        assert(before[x].0 == name);
    }
}

/// Storing a document keeps a collection well formed.
pub proof fn lemma_insert_inv(c: CollectionModel, id: Text, doc: JsonValue)
    requires
        c.inv(),
    ensures
        c.insert(id, doc).inv(),
{
    let after = c.insert(id, doc);
    lemma_put(c.docs, id, doc);
    assert forall|x: int| 0 <= x < after.indexes.len() implies (#[trigger] after.indexes[x]).1.inv()
        && sound(after.indexes[x].1, after.docs) by {
        assert(c.indexes[x].1.inv());
        lemma_enter_sound(c.indexes[x].1, c.docs, id, doc);
    }
    assert forall|x: int, y: int| 0 <= x < y < after.indexes.len() implies (
    #[trigger] after.indexes[x]).0 != (#[trigger] after.indexes[y]).0 by {
        assert(c.indexes[x].0 != c.indexes[y].0);
    }
}

/// Deleting a document keeps a collection well formed.
pub proof fn lemma_remove_doc_inv(c: CollectionModel, id: Text)
    requires
        c.inv(),
    ensures
        c.remove(id).inv(),
{
    let after = c.remove(id);
    if present(c.docs, id) {
        lemma_del(c.docs, id);
        assert forall|x: int| 0 <= x < after.indexes.len() implies (
        #[trigger] after.indexes[x]).1.inv() && sound(after.indexes[x].1, after.docs) by {
            assert(c.indexes[x].1.inv());
            lemma_leave_sound(c.indexes[x].1, c.docs, id);
        }
        assert forall|x: int, y: int| 0 <= x < y < after.indexes.len() implies (
        #[trigger] after.indexes[x]).0 != (#[trigger] after.indexes[y]).0 by {
            assert(c.indexes[x].0 != c.indexes[y].0);
        }
    }
}

/// Declaring an index keeps a collection well formed.
pub proof fn lemma_declare_inv(c: CollectionModel, name: Text, field: Text)
    requires
        c.inv(),
    ensures
        c.declare(name, field).inv(),
{
    let after = c.declare(name, field);
    let fresh = IndexModel::empty(field);
    lemma_put(c.indexes, name, fresh);
    assert(fresh.inv());
    assert(sound(fresh, c.docs)) by {
        assert forall|key: Text, id: Text| !(#[trigger] fresh.bucket(key).contains(id)) by {
            lemma_absent(fresh.buckets, key);
        }
    }
    assert forall|x: int| 0 <= x < after.indexes.len() implies (#[trigger] after.indexes[x]).1.inv()
        && sound(after.indexes[x].1, after.docs) by {
        if present(c.indexes, name) {
            if x != at(c.indexes, name) {
                assert(c.indexes[x].1.inv());
            }
        } else {
            if x < c.indexes.len() {
                assert(c.indexes[x].1.inv());
            }
        }
    }
}

/// A named set of documents with its indexes.
pub struct Collection {
    name: String,
    data: Vec<(String, Json)>,
    file: Option<String>,
    indexes: Vec<(String, Index)>,
    query_times: LatencyRing,
}

/// The indexes with their names, each as its mathematical value.
pub open spec fn indexes_view(indexes: Seq<(String, Index)>) -> Seq<(Text, IndexModel)> {
    Seq::new(indexes.len(), |x: int| (indexes[x].0@, indexes[x].1@))
}

/// The path of the log as a text.
pub open spec fn file_view(file: Option<String>) -> Option<Text> {
    match file {
        Some(path) => Some(path@),
        None => None,
    }
}

/// The documents as their mathematical values.
pub open spec fn docs_view(docs: Seq<Json>) -> Seq<JsonValue> {
    Seq::new(docs.len(), |i: int| docs[i]@)
}

/// The lines as texts.
pub open spec fn lines_view(lines: Seq<String>) -> Seq<Text> {
    Seq::new(lines.len(), |i: int| lines[i]@)
}

/// A copy of an index, as plain data.
#[derive(Debug, PartialEq)]
pub struct IndexSnapshot {
    pub name: String,
    /// The field that the index is on.
    pub key: String,
    /// The buckets: the keys in ascending order, each with its identifiers.
    pub buckets: Vec<(String, Vec<String>)>,
}

/// A copy of everything that a collection holds, as plain data.
#[derive(Debug, PartialEq)]
pub struct Snapshot {
    pub name: String,
    pub file: Option<String>,
    pub documents: Vec<(String, Json)>,
    pub indexes: Vec<IndexSnapshot>,
    pub query_times: Vec<(u64, u64)>,
}

/// The copies of the indexes with their names, each as its mathematical value.
pub open spec fn index_snapshots_view(indexes: Seq<IndexSnapshot>) -> Seq<(Text, IndexModel)> {
    Seq::new(
        indexes.len(),
        |x: int|
            (
                indexes[x].name@,
                IndexModel { field: indexes[x].key@, buckets: buckets_view(indexes[x].buckets@) },
            ),
    )
}

impl View for Snapshot {
    type V = CollectionModel;

    open spec fn view(&self) -> CollectionModel {
        CollectionModel {
            name: self.name@,
            docs: members_view(self.documents@),
            file: file_view(self.file),
            indexes: index_snapshots_view(self.indexes@),
            times: self.query_times@,
        }
    }
}

impl View for Collection {
    type V = CollectionModel;

    closed spec fn view(&self) -> CollectionModel {
        CollectionModel {
            name: self.name@,
            docs: members_view(self.data@),
            file: file_view(self.file),
            indexes: indexes_view(self.indexes@),
            times: self.query_times@,
        }
    }
}

/// The key of a document in an index on `field`.
pub fn key_of(doc: &Json, field: &str) -> (key: String)
    ensures
        key@ == index_key(doc@, field@),
{
    match doc.text_at(field) {
        Some(text) => text.clone(),
        None => "$$null".to_owned(),
    }
}

impl Collection {
    /// The collection is well formed.
    pub open spec fn wf(&self) -> bool {
        self@.inv()
    }

    /// A collection without documents or indexes, which keeps its log in
    /// `file` if one is given.
    pub fn new(name: String, file: Option<String>) -> (collection: Collection)
        ensures
            collection.wf(),
            collection@ == CollectionModel::empty(name@, file_view(file)),
    {
        let collection = Collection {
            name,
            data: Vec::new(),
            file,
            indexes: Vec::new(),
            query_times: LatencyRing::new(),
        };
        proof {
            assert(collection@.docs =~= Seq::empty());
            assert(collection@.indexes =~= Seq::empty());
        }
        collection
    }

    /// The name of the collection.
    pub fn name(&self) -> (name: &String)
        ensures
            name@ == self@.name,
    {
        &self.name
    }

    /// The path of the log, if the collection keeps one.
    pub fn file(&self) -> (file: &Option<String>)
        ensures
            file_view(*file) == self@.file,
    {
        &self.file
    }

    /// The number of documents.
    pub fn count(&self) -> (n: usize)
        ensures
            n == self@.docs.len(),
    {
        self.data.len()
    }

    /// Declares an empty index `name` on `field`, in place of any index of
    /// that name.
    pub fn declare_index(&mut self, name: String, field: String)
        requires
            old(self).wf(),
        ensures
            final(self).wf(),
            final(self)@ == old(self)@.declare(name@, field@),
    {
        let ghost before = self@;
        proof {
            lemma_declare_inv(before, name@, field@);
        }
        let fresh = Index::new(field);
        match find(&self.indexes, name.as_str()) {
            Some(x) => {
                proof {
                    lemma_at(before.indexes, name@, x as int);
                }
                self.indexes[x].1 = fresh;
                proof {
                    assert(self@.indexes =~= before.declare(name@, field@).indexes);
                }
            },
            None => {
                proof {
                    lemma_absent(before.indexes, name@);
                }
                self.indexes.push((name, fresh));
                proof {
                    assert(self@.indexes =~= before.declare(name@, field@).indexes);
                }
            },
        }
    }

    /// Declares an empty index `index` on the field `key`, unless the
    /// collection has an index of that name.
    pub fn create_index(&mut self, index: String, key: String) -> (outcome: Result<(), StoreError>)
        requires
            old(self).wf(),
        ensures
            final(self).wf(),
            match outcome {
                Ok(_) => !present(old(self)@.indexes, index@) && final(self)@ == old(
                    self,
                )@.declare(index@, key@),
                Err(e) => e == StoreError::IndexConflict && present(old(self)@.indexes, index@)
                    && final(self)@ == old(self)@,
            },
    {
        match find(&self.indexes, index.as_str()) {
            Some(x) => {
                proof {
                    lemma_at(self@.indexes, index@, x as int);
                }
                Err(StoreError::IndexConflict)
            },
            None => {
                proof {
                    lemma_absent(self@.indexes, index@);
                }
                self.declare_index(index, key);
                Ok(())
            },
        }
    }

    /// Says whether the collection holds a document under `id`.
    pub fn contains(&self, id: &str) -> (yes: bool)
        requires
            self.wf(),
        ensures
            yes == (self@.get(id@) is Some),
    {
        match find(&self.data, id) {
            Some(p) => {
                proof {
                    lemma_at(self@.docs, id@, p as int);
                }
                true
            },
            None => {
                proof {
                    lemma_absent(self@.docs, id@);
                }
                false
            },
        }
    }

    /// The document under `id`.
    pub fn get(&self, id: &str) -> (found: Option<&Json>)
        requires
            self.wf(),
        ensures
            match found {
                Some(doc) => self@.get(id@) == Some(doc@),
                None => self@.get(id@) is None,
            },
    {
        match find(&self.data, id) {
            Some(p) => {
                proof {
                    lemma_at(self@.docs, id@, p as int);
                }
                Some(&self.data[p].1)
            },
            None => {
                proof {
                    lemma_absent(self@.docs, id@);
                }
                None
            },
        }
    }

    /// Records the latency sample of a lookup.
    pub fn record(&mut self, timestamp: u64, duration: u64)
        requires
            old(self).wf(),
        ensures
            final(self).wf(),
            final(self)@ == old(self)@.record((timestamp, duration)),
    {
        self.query_times.record(timestamp, duration);
    }

    /// Looks up the document under `id` and records the latency sample of the
    /// lookup, whether or not a document is there.
    pub fn retrieve(&mut self, id: &str, timestamp: u64, duration: u64) -> (found: Option<Json>)
        requires
            old(self).wf(),
        ensures
            final(self).wf(),
            final(self)@ == old(self)@.record((timestamp, duration)),
            match found {
                Some(doc) => old(self)@.get(id@) == Some(doc@),
                None => old(self)@.get(id@) is None,
            },
    {
        let found = match self.get(id) {
            Some(doc) => Some(doc.duplicate()),
            None => None,
        };
        self.record(timestamp, duration);
        found
    }

    /// The documents under the identifiers, in their order, with null in the
    /// place of an identifier that the collection does not hold.
    pub fn retrieve_bulk(&self, ids: &Vec<String>) -> (found: Vec<Json>)
        requires
            self.wf(),
        ensures
            docs_view(found@) == fetch_or_null(self@.docs, ids_view(ids@)),
    {
        let mut found: Vec<Json> = Vec::new();
        let mut i: usize = 0;
        while i < ids.len()
            invariant
                self.wf(),
                i <= ids@.len(),
                found@.len() == i,
                forall|j: int|
                    0 <= j < i ==> found@[j]@ == fetch_or_null(self@.docs, ids_view(ids@))[j],
            decreases ids@.len() - i,
        {
            let doc = match self.get(ids[i].as_str()) {
                Some(doc) => doc.duplicate(),
                None => Json::Null,
            };
            found.push(doc);
            i += 1;
        }
        proof {
            assert(docs_view(found@) =~= fetch_or_null(self@.docs, ids_view(ids@)));
        }
        found
    }

    /// The documents that the index `name` holds under `key`, in the order of
    /// the bucket; `None` if the collection has no such index.
    pub fn query(&self, name: &str, key: &str) -> (found: Option<Vec<Json>>)
        requires
            self.wf(),
        ensures
            match found {
                Some(docs) => self@.query(name@, key@) == Some(docs_view(docs@)),
                None => self@.query(name@, key@) is None,
            },
    {
        match find(&self.indexes, name) {
            Some(x) => {
                proof {
                    lemma_at(self@.indexes, name@, x as int);
                    assert(self@.indexes[x as int].1.inv());
                }
                let ghost index = self@.indexes[x as int].1;
                let ids = self.indexes[x].1.bucket(key);
                let mut docs: Vec<Json> = Vec::new();
                let mut i: usize = 0;
                while i < ids.len()
                    invariant
                        self.wf(),
                        sound(index, self@.docs),
                        ids_view(ids@) == index.bucket(key@),
                        i <= ids@.len(),
                        docs@.len() == i,
                        forall|j: int|
                            0 <= j < i ==> docs@[j]@ == fetch(self@.docs, index.bucket(key@))[j],
                    decreases ids@.len() - i,
                {
                    proof {
                        assert(ids_view(ids@)[i as int] == ids@[i as int]@);
                        assert(index.bucket(key@).contains(ids@[i as int]@));
                    }
                    if let Some(doc) = self.get(ids[i].as_str()) {
                        docs.push(doc.duplicate());
                    }
                    i += 1;
                }
                proof {
                    assert(docs_view(docs@) =~= fetch(self@.docs, index.bucket(key@)));
                }
                Some(docs)
            },
            None => {
                proof {
                    lemma_absent(self@.indexes, name@);
                }
                None
            },
        }
    }

    /// All documents, in the order of the collection.
    pub fn documents(&self) -> (docs: Vec<Json>)
        ensures
            docs_view(docs@) == self@.documents(),
    {
        let mut docs: Vec<Json> = Vec::new();
        let mut i: usize = 0;
        while i < self.data.len()
            invariant
                i <= self.data@.len(),
                docs@.len() == i,
                forall|j: int| 0 <= j < i ==> docs@[j]@ == self.data@[j].1@,
            decreases self.data@.len() - i,
        {
            docs.push(self.data[i].1.duplicate());
            i += 1;
        }
        proof {
            assert(docs_view(docs@) =~= self@.documents());
        }
        docs
    }

    /// All documents with their identifiers, in the order of the collection.
    pub fn entries(&self) -> (entries: Vec<(String, Json)>)
        ensures
            members_view(entries@) == self@.docs,
    {
        let mut entries: Vec<(String, Json)> = Vec::new();
        let mut i: usize = 0;
        while i < self.data.len()
            invariant
                i <= self.data@.len(),
                entries@.len() == i,
                forall|j: int|
                    0 <= j < i ==> entries@[j].0@ == self.data@[j].0@ && entries@[j].1@
                        == self.data@[j].1@,
            decreases self.data@.len() - i,
        {
            entries.push((self.data[i].0.clone(), self.data[i].1.duplicate()));
            i += 1;
        }
        proof {
            assert(members_view(entries@) =~= self@.docs);
        }
        entries
    }

    /// A copy of everything that the collection holds.
    pub fn snapshot(&self) -> (snapshot: Snapshot)
        ensures
            snapshot@ == self@,
    {
        let mut indexes: Vec<IndexSnapshot> = Vec::new();
        let mut x: usize = 0;
        while x < self.indexes.len()
            invariant
                x <= self.indexes@.len(),
                indexes@.len() == x,
                forall|y: int|
                    0 <= y < x ==> index_snapshots_view(indexes@)[y] == indexes_view(
                        self.indexes@,
                    )[y],
            decreases self.indexes@.len() - x,
        {
            let ghost before = indexes@;
            let index = &self.indexes[x].1;
            indexes.push(
                IndexSnapshot {
                    name: self.indexes[x].0.clone(),
                    key: index.field().clone(),
                    buckets: index.buckets(),
                },
            );
            proof {
                assert forall|y: int| 0 <= y < x + 1 implies index_snapshots_view(indexes@)[y]
                    == indexes_view(self.indexes@)[y] by {
                    if y < x {
                        assert(indexes@[y] == before[y]);
                        assert(index_snapshots_view(before)[y] == indexes_view(self.indexes@)[y]);
                    }
                }
            }
            x += 1;
        }
        let file = match &self.file {
            Some(path) => Some(path.clone()),
            None => None,
        };
        let snapshot = Snapshot {
            name: self.name.clone(),
            file,
            documents: self.entries(),
            indexes,
            query_times: self.query_times.snapshot(),
        };
        proof {
            assert(snapshot@.indexes =~= self@.indexes);
        }
        snapshot
    }

    /// The lines of a compacted log: the text of every document, in the order
    /// of the collection.
    pub fn compacted(&self) -> (lines: Vec<String>)
        ensures
            lines_view(lines@) == self@.compacted(),
    {
        let mut lines: Vec<String> = Vec::new();
        let mut i: usize = 0;
        while i < self.data.len()
            invariant
                i <= self.data@.len(),
                lines@.len() == i,
                forall|j: int| 0 <= j < i ==> lines@[j]@ == json_text(self.data@[j].1@),
            decreases self.data@.len() - i,
        {
            lines.push(to_text(&self.data[i].1));
            i += 1;
        }
        proof {
            assert(lines_view(lines@) =~= self@.compacted());
        }
        lines
    }

    /// The latency samples, oldest first.
    pub fn times(&self) -> (samples: Vec<(u64, u64)>)
        ensures
            samples@ == self@.times,
    {
        self.query_times.snapshot()
    }
}

/// What a mutation asks to have appended to the log of a collection: the line
/// of the record, where the collection keeps a log and the caller asked for
/// the mutation to be logged.
pub open spec fn logged(c: CollectionModel, modify_fs: bool, line: Text) -> Option<Text> {
    if modify_fs && c.file is Some {
        Some(line)
    } else {
        None
    }
}

/// The line that is held, as a text.
pub open spec fn line_view(line: Option<String>) -> Option<Text> {
    match line {
        Some(text) => Some(text@),
        None => None,
    }
}

/// Stores `json_content` under `id`, in place of any document that is there,
/// and enters `id` in every index under the key of the new document, taking it
/// out from under the key of the old one. Hands back the line to append to the
/// log, if the collection keeps one and `modify_fs` is set.
pub fn insert_into_collection(
    collection: &mut Collection,
    id: String,
    json_content: Json,
    modify_fs: bool,
) -> (line: Option<String>)
    requires
        old(collection).wf(),
    ensures
        final(collection).wf(),
        final(collection)@ == old(collection)@.insert(id@, json_content@),
        line_view(line) == logged(old(collection)@, modify_fs, json_text(json_content@)),
{
    let ghost before = collection@;
    let ghost after = before.insert(id@, json_content@);
    proof {
        lemma_insert_inv(before, id@, json_content@);
    }
    let line = if modify_fs && collection.file.is_some() {
        Some(to_text(&json_content))
    } else {
        None
    };
    let place = find(&collection.data, id.as_str());
    proof {
        match place {
            Some(p) => {
                lemma_at(before.docs, id@, p as int);
            },
            None => {
                lemma_absent(before.docs, id@);
            },
        }
    }
    let mut x: usize = 0;
    while x < collection.indexes.len()
        invariant
            before.inv(),
            after == before.insert(id@, json_content@),
            collection.indexes@.len() == before.indexes.len(),
            x <= collection.indexes@.len(),
            collection.name == old(collection).name,
            collection.data == old(collection).data,
            collection.file == old(collection).file,
            collection.query_times == old(collection).query_times,
            before.docs == members_view(collection.data@),
            match place {
                Some(p) => p < collection.data@.len() && before.get(id@) == Some(
                    collection.data@[p as int].1@,
                ),
                None => before.get(id@) is None,
            },
            forall|y: int|
                0 <= y < x ==> indexes_view(collection.indexes@)[y] == after.indexes[y],
            forall|y: int|
                x <= y < collection.indexes@.len() ==> indexes_view(collection.indexes@)[y]
                    == before.indexes[y],
        decreases collection.indexes@.len() - x,
    {
        proof {
            assert(indexes_view(collection.indexes@)[x as int] == before.indexes[x as int]);
            assert(before.indexes[x as int].1.inv());
        }
        let ghost index = before.indexes[x as int].1;
        let ghost entries = collection.indexes@;
        let field = collection.indexes[x].1.field().clone();
        match place {
            Some(p) => {
                let old_key = key_of(&collection.data[p].1, field.as_str());
                proof {
                    lemma_remove_inv(index, old_key@, id@);
                }
                collection.indexes[x].1.remove(old_key.as_str(), id.as_str());
            },
            None => {},
        }
        let new_key = key_of(&json_content, field.as_str());
        collection.indexes[x].1.add(new_key.as_str(), id.as_str());
        proof {
            assert(collection.indexes@[x as int].1@ == enter(
                index,
                before.get(id@),
                id@,
                json_content@,
            ));
            assert(collection.indexes@[x as int].0 == entries[x as int].0);
            assert forall|y: int|
                0 <= y < collection.indexes@.len() && y != x implies collection.indexes@[y]
                == entries[y] by {}
            assert forall|y: int| 0 <= y < x + 1 implies indexes_view(collection.indexes@)[y]
                == after.indexes[y] by {
                if y < x {
                    assert(indexes_view(entries)[y] == after.indexes[y]);
                }
            }
            assert forall|y: int|
                x + 1 <= y < collection.indexes@.len() implies indexes_view(
                collection.indexes@,
            )[y] == before.indexes[y] by {
                assert(indexes_view(entries)[y] == before.indexes[y]);
            }
        }
        x += 1;
    }
    match place {
        Some(p) => {
            collection.data[p].1 = json_content;
        },
        None => {
            collection.data.push((id, json_content));
        },
    }
    proof {
        assert(collection@.docs =~= after.docs);
        assert(collection@.indexes =~= after.indexes);
    }
    line
}

/// Deletes the document under `id` and takes `id` out of every index, from
/// under the key of that document. Hands back the document, or null if there
/// was none, and the tombstone line to append to the log, if a document was
/// deleted, the collection keeps a log and `modify_fs` is set.
pub fn remove_from_collection(collection: &mut Collection, id: String, modify_fs: bool) -> (removed:
    (Json, Option<String>))
    requires
        old(collection).wf(),
    ensures
        final(collection).wf(),
        final(collection)@ == old(collection)@.remove(id@),
        match old(collection)@.get(id@) {
            Some(doc) => removed.0@ == doc && line_view(removed.1) == logged(
                old(collection)@,
                modify_fs,
                json_text(tombstone(id@)),
            ),
            None => removed.0@ == JsonValue::Null && removed.1 is None,
        },
{
    let ghost before = collection@;
    let ghost after = before.remove(id@);
    proof {
        lemma_remove_doc_inv(before, id@);
    }
    let p = match find(&collection.data, id.as_str()) {
        Some(p) => p,
        None => {
            proof {
                lemma_absent(before.docs, id@);
            }
            return (Json::Null, None);
        },
    };
    proof {
        lemma_at(before.docs, id@, p as int);
    }
    let line = if modify_fs && collection.file.is_some() {
        let record = tombstone_record(id.as_str());
        Some(to_text(&record))
    } else {
        None
    };
    let ghost prev = before.docs[p as int].1;
    let mut x: usize = 0;
    while x < collection.indexes.len()
        invariant
            before.inv(),
            before.get(id@) == Some(prev),
            after == before.remove(id@),
            collection.indexes@.len() == before.indexes.len(),
            x <= collection.indexes@.len(),
            collection.name == old(collection).name,
            collection.data == old(collection).data,
            collection.file == old(collection).file,
            collection.query_times == old(collection).query_times,
            p < collection.data@.len(),
            collection.data@[p as int].1@ == prev,
            forall|y: int|
                0 <= y < x ==> indexes_view(collection.indexes@)[y] == after.indexes[y],
            forall|y: int|
                x <= y < collection.indexes@.len() ==> indexes_view(collection.indexes@)[y]
                    == before.indexes[y],
        decreases collection.indexes@.len() - x,
    {
        proof {
            assert(indexes_view(collection.indexes@)[x as int] == before.indexes[x as int]);
            assert(before.indexes[x as int].1.inv());
        }
        let ghost index = before.indexes[x as int].1;
        let ghost entries = collection.indexes@;
        let field = collection.indexes[x].1.field().clone();
        let old_key = key_of(&collection.data[p].1, field.as_str());
        collection.indexes[x].1.remove(old_key.as_str(), id.as_str());
        proof {
            assert(collection.indexes@[x as int].1@ == leave(index, prev, id@));
            assert(collection.indexes@[x as int].0 == entries[x as int].0);
            assert forall|y: int|
                0 <= y < collection.indexes@.len() && y != x implies collection.indexes@[y]
                == entries[y] by {}
            assert forall|y: int| 0 <= y < x + 1 implies indexes_view(collection.indexes@)[y]
                == after.indexes[y] by {
                if y < x {
                    assert(indexes_view(entries)[y] == after.indexes[y]);
                }
            }
            assert forall|y: int|
                x + 1 <= y < collection.indexes@.len() implies indexes_view(
                collection.indexes@,
            )[y] == before.indexes[y] by {
                assert(indexes_view(entries)[y] == before.indexes[y]);
            }
        }
        x += 1;
    }
    let entry = collection.data.remove(p);
    proof {
        assert(collection@.docs =~= after.docs);
        assert(collection@.indexes =~= after.indexes);
    }
    (entry.1, line)
}

} // verus!
