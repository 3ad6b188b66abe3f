//! The registry: all collections of a store, by name. Every operation of the
//! store goes through it.

use crate::assoc::at;
use crate::assoc::del;
use crate::assoc::distinct;
use crate::assoc::lemma_absent;
use crate::assoc::lemma_at;
use crate::assoc::lemma_del;
use crate::assoc::lemma_put;
use crate::assoc::lookup;
use crate::assoc::present;
use crate::assoc::put;
use crate::assoc::Text;
use crate::codec::json_parse;
use crate::codec::json_text;
use crate::codec::parse_json;
use crate::collection::Collection;
use crate::collection::CollectionModel;
use crate::collection::docs_view;
use crate::collection::fetch_or_null;
use crate::collection::file_view;
use crate::collection::insert_into_collection;
use crate::collection::lemma_declare_inv;
use crate::collection::lines_view;
use crate::collection::remove_from_collection;
use crate::collection::sentinel;
use crate::collection::Snapshot;
use crate::collection::values;
use crate::error::StoreError;
use crate::index::ids_view;
use crate::json::Json;
use crate::log::replay;
use crate::log::replay_log;
use crate::log::tombstone;
use crate::order::same_text;
use vstd::prelude::*;
use vstd::string::StringExecFns;

verus! {

/// The declaration of an index at the creation of a collection.
#[derive(Debug, PartialEq)]
pub struct CreatedIndex {
    pub name: String,
    pub key: String,
}

/// A line to append to the log of a collection.
#[derive(Debug, PartialEq)]
pub struct Append {
    pub file: String,
    pub line: String,
}

/// The rewriting of a log: the lines go to `scratch`, which then takes the
/// place of `file`.
#[derive(Debug, PartialEq)]
pub struct Compaction {
    pub file: String,
    pub scratch: String,
    pub lines: Vec<String>,
}

/// The mathematical value of a `Registry`: the collections with their names,
/// in the order of their creation.
pub type RegistryModel = Seq<(Text, CollectionModel)>;

/// No name occurs twice, and every collection is well formed and stands under
/// its own name.
pub open spec fn registry_inv(r: RegistryModel) -> bool {
    &&& distinct(r)
    &&& forall|i: int| 0 <= i < r.len() ==> (#[trigger] r[i]).1.inv() && r[i].0 == r[i].1.name
}

/// The declarations as pairs of the name of an index and its field.
pub open spec fn declarations_view(indexes: Seq<CreatedIndex>) -> Seq<(Text, Text)> {
    Seq::new(indexes.len(), |i: int| (indexes[i].name@, indexes[i].key@))
}

/// The collection after the indexes are declared in order.
pub open spec fn declare_all(c: CollectionModel, indexes: Seq<(Text, Text)>) -> CollectionModel
    decreases indexes.len(),
{
    if indexes.len() == 0 {
        c
    } else {
        declare_all(c, indexes.drop_last()).declare(indexes.last().0, indexes.last().1)
    }
}

/// The collection that `create` builds before it replays the log.
pub open spec fn created(name: Text, file: Option<Text>, indexes: Seq<(Text, Text)>)
    -> CollectionModel {
    declare_all(CollectionModel::empty(name, file), indexes)
}

/// The path to which a compaction writes: that of the log, with a tilde
/// behind it.
pub open spec fn scratch_path(file: Text) -> Text {
    file + "~"@
}

/// What is appended to the log of the collection: the line, to the path of
/// the log, where the collection keeps one.
pub open spec fn appended(c: CollectionModel, line: Text) -> Option<(Text, Text)> {
    match c.file {
        Some(file) => Some((file, line)),
        None => None,
    }
}

/// What an `Append` asks for, as texts.
pub open spec fn append_view(append: Option<Append>) -> Option<(Text, Text)> {
    match append {
        Some(a) => Some((a.file@, a.line@)),
        None => None,
    }
}

/// The copies of the collections, each as its mathematical value.
pub open spec fn snapshots_view(snapshots: Seq<Snapshot>) -> Seq<CollectionModel> {
    Seq::new(snapshots.len(), |i: int| snapshots[i]@)
}

/// Declaring indexes keeps a collection well formed, and leaves its name, its
/// documents, its log and its samples as they are.
pub proof fn lemma_declare_all(c: CollectionModel, indexes: Seq<(Text, Text)>)
    requires
        c.inv(),
    ensures
        declare_all(c, indexes).inv(),
        declare_all(c, indexes).name == c.name,
        declare_all(c, indexes).docs == c.docs,
        declare_all(c, indexes).file == c.file,
        declare_all(c, indexes).times == c.times,
    decreases indexes.len(),
{
    if indexes.len() > 0 {
        lemma_declare_all(c, indexes.drop_last());
        lemma_declare_inv(
            declare_all(c, indexes.drop_last()),
            indexes.last().0,
            indexes.last().1,
        );
    }
}

/// All collections of a store.
pub struct Registry {
    collections: Vec<Collection>,
}

/// The collections with their names.
pub open spec fn collections_view(collections: Seq<Collection>) -> RegistryModel {
    Seq::new(collections.len(), |i: int| (collections[i]@.name, collections[i]@))
}

impl View for Registry {
    type V = RegistryModel;

    closed spec fn view(&self) -> RegistryModel {
        collections_view(self.collections@)
    }
}

impl Registry {
    /// The registry is well formed.
    pub open spec fn wf(&self) -> bool {
        registry_inv(self@)
    }

    /// A registry without collections.
    pub fn new() -> (registry: Registry)
        ensures
            registry.wf(),
            registry@ == Seq::<(Text, CollectionModel)>::empty(),
    {
        let registry = Registry { collections: Vec::new() };
        proof {
            assert(registry@ =~= Seq::empty());
        }
        registry
    }

    /// The place of the collection of the name.
    fn locate(&self, name: &str) -> (place: Option<usize>)
        requires
            self.wf(),
        ensures
            match place {
                Some(i) => i < self.collections@.len() && present(self@, name@) && at(
                    self@,
                    name@,
                ) == i && lookup(self@, name@) == Some(self.collections@[i as int]@)
                    && self.collections@[i as int]@.name == name@
                    && self.collections@[i as int].wf(),
                None => !present(self@, name@),
            },
    {
        let mut i: usize = 0;
        while i < self.collections.len()
            invariant
                self.wf(),
                i <= self.collections@.len(),
                forall|j: int| 0 <= j < i ==> (#[trigger] self@[j]).0 != name@,
            decreases self.collections@.len() - i,
        {
            if same_text(self.collections[i].name().as_str(), name) {
                proof {
                    assert(self@[i as int].0 == name@);
                    lemma_at(self@, name@, i as int);
                    assert(self@[i as int].1.inv());
                }
                return Some(i);
            }
            proof {
                assert(self@[i as int].0 == self.collections@[i as int]@.name);
            }
            i += 1;
        }
        proof {
            lemma_absent(self@, name@);
        }
        None
    }

    /// Creates the collection `name` with the declared indexes, and replays the
    /// lines of its log into it. Nothing is created if the name is taken or a
    /// line is not a record.
    pub fn create(
        &mut self,
        name: String,
        file: Option<String>,
        indexes: &Vec<CreatedIndex>,
        lines: &Vec<String>,
    ) -> (outcome: Result<(), StoreError>)
        requires
            old(self).wf(),
        ensures
            final(self).wf(),
            present(old(self)@, name@) ==> outcome == Err::<(), StoreError>(
                StoreError::CollectionConflict,
            ) && final(self)@ == old(self)@,
            !present(old(self)@, name@) ==> match replay(
                created(name@, file_view(file), declarations_view(indexes@)),
                lines_view(lines@),
            ) {
                Ok(collection) => outcome is Ok && final(self)@ == old(self)@.push(
                    (name@, collection),
                ),
                Err(bad) => 0 <= bad < lines@.len() && outcome == Err::<(), StoreError>(
                    StoreError::MalformedRecord { line: bad as usize },
                ) && final(self)@ == old(self)@,
            },
    {
        if self.locate(name.as_str()).is_some() {
            return Err(StoreError::CollectionConflict);
        }
        let ghost fresh = CollectionModel::empty(name@, file_view(file));
        let ghost declared = declarations_view(indexes@);
        let mut collection = Collection::new(name, file);
        let mut i: usize = 0;
        proof {
            assert(declared.take(0) =~= Seq::<(Text, Text)>::empty());
        }
        while i < indexes.len()
            invariant
                collection.wf(),
                declared == declarations_view(indexes@),
                i <= indexes@.len(),
                collection@ == declare_all(fresh, declared.take(i as int)),
            decreases indexes@.len() - i,
        {
            proof {
                assert(declared.take(i + 1).drop_last() =~= declared.take(i as int));
                assert(declared.take(i + 1).last() == (
                    indexes@[i as int].name@,
                    indexes@[i as int].key@,
                ));
            }
            collection.declare_index(indexes[i].name.clone(), indexes[i].key.clone());
            i += 1;
        }
        proof {
            assert(declared.take(i as int) =~= declared);
            lemma_declare_all(fresh, declared);
        }
        let ghost start = collection@;
        match replay_log(&mut collection, lines) {
            Ok(_) => {
                proof {
                    lemma_replay_keeps_name(start, lines_view(lines@));
                }
                let ghost before = self@;
                self.collections.push(collection);
                proof {
                    assert(self@ =~= before.push((start.name, collection@)));
                    assert forall|a: int, b: int| 0 <= a < b < self@.len() implies (
                    #[trigger] self@[a]).0 != (#[trigger] self@[b]).0 by {
                        if b < before.len() {
                            assert(before[a].0 != before[b].0);
                        } else {
                            assert(before[a].0 != start.name);
                        }
                    }
                    assert forall|a: int| 0 <= a < self@.len() implies (#[trigger] self@[a]).1.inv()
                        && self@[a].0 == self@[a].1.name by {
                        if a < before.len() {
                            assert(before[a].1.inv());
                        }
                    }
                }
                Ok(())
            },
            Err(e) => Err(e),
        }
    }

    /// Drops the collection `name`. Its log is not touched.
    pub fn delete_collection(&mut self, name: &str) -> (outcome: Result<(), StoreError>)
        requires
            old(self).wf(),
        ensures
            final(self).wf(),
            match outcome {
                Ok(_) => present(old(self)@, name@) && final(self)@ == del(old(self)@, name@),
                Err(e) => e == StoreError::CollectionNotFound && !present(old(self)@, name@)
                    && final(self)@ == old(self)@,
            },
    {
        match self.locate(name) {
            Some(i) => {
                let ghost before = self@;
                proof {
                    lemma_del(before, name@);
                }
                let _ = self.collections.remove(i);
                proof {
                    assert(self@ =~= del(before, name@));
                    assert forall|a: int| 0 <= a < self@.len() implies (#[trigger] self@[a]).1.inv()
                        && self@[a].0 == self@[a].1.name by {
                        let b = if a < i { a } else { a + 1 };
                        assert(before[b].1.inv());
                    }
                }
                Ok(())
            },
            None => Err(StoreError::CollectionNotFound),
        }
    }

    /// Drops every collection. No log is touched.
    pub fn reset(&mut self)
        ensures
            final(self).wf(),
            final(self)@ == Seq::<(Text, CollectionModel)>::empty(),
    {
        self.collections = Vec::new();
        proof {
            assert(self@ =~= Seq::empty());
        }
    }

    /// The number of collections.
    pub fn len(&self) -> (n: usize)
        ensures
            n == self@.len(),
    {
        self.collections.len()
    }

    /// A copy of every collection with all that it holds, in the order of
    /// creation.
    pub fn list(&self) -> (snapshots: Vec<Snapshot>)
        ensures
            snapshots_view(snapshots@) == values(self@),
    {
        let mut snapshots: Vec<Snapshot> = Vec::new();
        let mut i: usize = 0;
        while i < self.collections.len()
            invariant
                i <= self.collections@.len(),
                snapshots@.len() == i,
                forall|j: int| 0 <= j < i ==> snapshots@[j]@ == self.collections@[j]@,
            decreases self.collections@.len() - i,
        {
            snapshots.push(self.collections[i].snapshot());
            i += 1;
        }
        proof {
            assert(snapshots_view(snapshots@) =~= values(self@));
        }
        snapshots
    }

    /// All documents of the collection `name`, in the order of the collection.
    pub fn get_collection(&self, name: &str) -> (outcome: Result<Vec<Json>, StoreError>)
        requires
            self.wf(),
        ensures
            match outcome {
                Ok(docs) => lookup(self@, name@) matches Some(c) && docs_view(docs@)
                    == c.documents(),
                Err(e) => e == StoreError::CollectionNotFound && !present(self@, name@),
            },
    {
        match self.locate(name) {
            Some(i) => Ok(self.collections[i].documents()),
            None => Err(StoreError::CollectionNotFound),
        }
    }

    /// The latency samples of the collection `name`, oldest first.
    pub fn get_times(&self, name: &str) -> (outcome: Result<Vec<(u64, u64)>, StoreError>)
        requires
            self.wf(),
        ensures
            match outcome {
                Ok(samples) => lookup(self@, name@) matches Some(c) && samples@ == c.times,
                Err(e) => e == StoreError::CollectionNotFound && !present(self@, name@),
            },
    {
        match self.locate(name) {
            Some(i) => Ok(self.collections[i].times()),
            None => Err(StoreError::CollectionNotFound),
        }
    }

    /// The number of documents of the collection `name`.
    pub fn get_count(&self, name: &str) -> (outcome: Result<usize, StoreError>)
        requires
            self.wf(),
        ensures
            match outcome {
                Ok(n) => lookup(self@, name@) matches Some(c) && n == c.docs.len(),
                Err(e) => e == StoreError::CollectionNotFound && !present(self@, name@),
            },
    {
        match self.locate(name) {
            Some(i) => Ok(self.collections[i].count()),
            None => Err(StoreError::CollectionNotFound),
        }
    }

    /// Stores `doc` under `id` in the collection `name`. Hands back what to
    /// append to the log of the collection, if it keeps one.
    pub fn insert_item(&mut self, name: &str, id: String, doc: Json) -> (outcome: Result<
        Option<Append>,
        StoreError,
    >)
        requires
            old(self).wf(),
        ensures
            final(self).wf(),
            match outcome {
                Ok(append) => lookup(old(self)@, name@) matches Some(c) && final(self)@ == put(
                    old(self)@,
                    name@,
                    c.insert(id@, doc@),
                ) && append_view(append) == appended(c, json_text(doc@)),
                Err(e) => e == StoreError::CollectionNotFound && !present(old(self)@, name@)
                    && final(self)@ == old(self)@,
            },
    {
        match self.locate(name) {
            Some(i) => {
                let ghost before = self@;
                let ghost c = self.collections@[i as int]@;
                let line = insert_into_collection(&mut self.collections[i], id, doc, true);
                proof {
                    lemma_changed(before, self@, name@, i as int, c.insert(id@, doc@));
                }
                let append = match line {
                    Some(line) => match self.collections[i].file() {
                        Some(file) => Some(Append { file: file.clone(), line }),
                        None => None,
                    },
                    None => None,
                };
                Ok(append)
            },
            None => Err(StoreError::CollectionNotFound),
        }
    }

    /// Reads `text` as a document and stores it under `id` in the collection
    /// `name`. A text that is not JSON is refused before the collection is
    /// looked for.
    pub fn insert_text(&mut self, name: &str, id: String, text: &str) -> (outcome: Result<
        Option<Append>,
        StoreError,
    >)
        requires
            old(self).wf(),
        ensures
            final(self).wf(),
            match outcome {
                Ok(append) => json_parse(text@) matches Some(doc) && lookup(old(self)@, name@)
                    matches Some(c) && final(self)@ == put(old(self)@, name@, c.insert(id@, doc))
                    && append_view(append) == appended(c, json_text(doc)),
                Err(e) => final(self)@ == old(self)@ && match json_parse(text@) {
                    Some(_) => e == StoreError::CollectionNotFound && !present(old(self)@, name@),
                    None => e == StoreError::MalformedDocument,
                },
            },
    {
        match parse_json(text) {
            Some(doc) => self.insert_item(name, id, doc),
            None => Err(StoreError::MalformedDocument),
        }
    }

    /// Looks up the document under `id` in the collection `name`. Nothing is
    /// recorded: the caller who measures the lookup hands the sample to
    /// `record_lookup`.
    pub fn lookup_item(&self, name: &str, id: &str) -> (outcome: Result<Json, StoreError>)
        requires
            self.wf(),
        ensures
            match outcome {
                Ok(doc) => lookup(self@, name@) matches Some(c) && c.get(id@) == Some(doc@),
                Err(e) => match lookup(self@, name@) {
                    Some(c) => e == StoreError::ItemNotFound && c.get(id@) is None,
                    None => e == StoreError::CollectionNotFound,
                },
            },
    {
        match self.locate(name) {
            Some(i) => match self.collections[i].get(id) {
                Some(doc) => Ok(doc.duplicate()),
                None => Err(StoreError::ItemNotFound),
            },
            None => Err(StoreError::CollectionNotFound),
        }
    }

    /// Records the latency sample of a lookup in the collection `name`,
    /// whether or not the lookup found a document.
    pub fn record_lookup(&mut self, name: &str, timestamp: u64, duration: u64) -> (outcome: Result<
        (),
        StoreError,
    >)
        requires
            old(self).wf(),
        ensures
            final(self).wf(),
            match outcome {
                Ok(_) => lookup(old(self)@, name@) matches Some(c) && final(self)@ == put(
                    old(self)@,
                    name@,
                    c.record((timestamp, duration)),
                ),
                Err(e) => e == StoreError::CollectionNotFound && !present(old(self)@, name@)
                    && final(self)@ == old(self)@,
            },
    {
        match self.locate(name) {
            Some(i) => {
                let ghost before = self@;
                let ghost c = self.collections@[i as int]@;
                self.collections[i].record(timestamp, duration);
                proof {
                    lemma_changed(
                        before,
                        self@,
                        name@,
                        i as int,
                        c.record((timestamp, duration)),
                    );
                }
                Ok(())
            },
            None => Err(StoreError::CollectionNotFound),
        }
    }

    /// Looks up the document under `id` in the collection `name`, and records
    /// the latency sample of the lookup. The sample is recorded whenever the
    /// collection exists, whether or not it holds the document.
    pub fn retrieve_item(
        &mut self,
        name: &str,
        id: &str,
        timestamp: u64,
        duration: u64,
    ) -> (outcome: Result<Json, StoreError>)
        requires
            old(self).wf(),
        ensures
            final(self).wf(),
            match lookup(old(self)@, name@) {
                Some(c) => final(self)@ == put(
                    old(self)@,
                    name@,
                    c.record((timestamp, duration)),
                ) && match outcome {
                    Ok(doc) => c.get(id@) == Some(doc@),
                    Err(e) => e == StoreError::ItemNotFound && c.get(id@) is None,
                },
                None => outcome == Err::<Json, StoreError>(StoreError::CollectionNotFound)
                    && final(self)@ == old(self)@,
            },
    {
        let found = self.lookup_item(name, id);
        match self.record_lookup(name, timestamp, duration) {
            Ok(_) => found,
            Err(e) => Err(e),
        }
    }

    /// The documents under the identifiers in the collection `name`, in their
    /// order, with null in the place of an identifier that it does not hold.
    pub fn retrieve_bulk(&self, name: &str, ids: &Vec<String>) -> (outcome: Result<
        Vec<Json>,
        StoreError,
    >)
        requires
            self.wf(),
        ensures
            match outcome {
                Ok(docs) => lookup(self@, name@) matches Some(c) && docs_view(docs@)
                    == fetch_or_null(c.docs, ids_view(ids@)),
                Err(e) => e == StoreError::CollectionNotFound && !present(self@, name@),
            },
    {
        match self.locate(name) {
            Some(i) => Ok(self.collections[i].retrieve_bulk(ids)),
            None => Err(StoreError::CollectionNotFound),
        }
    }

    /// The documents that the index `index` of the collection `name` holds
    /// under `key`, or under the sentinel where no key is given; in the order
    /// of the bucket, and none if there is no such bucket.
    pub fn retrieve_indexed(&self, name: &str, index: &str, key: Option<&str>) -> (outcome: Result<
        Vec<Json>,
        StoreError,
    >)
        requires
            self.wf(),
        ensures
            match outcome {
                Ok(docs) => lookup(self@, name@) matches Some(c) && c.query(
                    index@,
                    key_view(key),
                ) == Some(docs_view(docs@)),
                Err(e) => match lookup(self@, name@) {
                    Some(c) => e == StoreError::IndexNotFound && c.query(index@, key_view(key))
                        is None,
                    None => e == StoreError::CollectionNotFound,
                },
            },
    {
        let key_value = match key {
            Some(key) => key,
            None => "$$null",
        };
        match self.locate(name) {
            Some(i) => match self.collections[i].query(index, key_value) {
                Some(docs) => Ok(docs),
                None => Err(StoreError::IndexNotFound),
            },
            None => Err(StoreError::CollectionNotFound),
        }
    }

    /// Deletes the document under `id` from the collection `name`. Hands back
    /// the document, and what to append to the log of the collection, if it
    /// keeps one.
    pub fn delete_item(&mut self, name: &str, id: &str) -> (outcome: Result<
        (Json, Option<Append>),
        StoreError,
    >)
        requires
            old(self).wf(),
        ensures
            final(self).wf(),
            match outcome {
                Ok(removed) => lookup(old(self)@, name@) matches Some(c) && c.get(id@) == Some(
                    removed.0@,
                ) && final(self)@ == put(old(self)@, name@, c.remove(id@)) && append_view(
                    removed.1,
                ) == appended(c, json_text(tombstone(id@))),
                Err(e) => final(self)@ == old(self)@ && match lookup(old(self)@, name@) {
                    Some(c) => e == StoreError::ItemNotFound && c.get(id@) is None,
                    None => e == StoreError::CollectionNotFound,
                },
            },
    {
        match self.locate(name) {
            Some(i) => {
                if !self.collections[i].contains(id) {
                    return Err(StoreError::ItemNotFound);
                }
                let ghost before = self@;
                let ghost c = self.collections@[i as int]@;
                let (doc, line) = remove_from_collection(
                    &mut self.collections[i],
                    id.to_owned(),
                    true,
                );
                proof {
                    lemma_changed(before, self@, name@, i as int, c.remove(id@));
                }
                let append = match line {
                    Some(line) => match self.collections[i].file() {
                        Some(file) => Some(Append { file: file.clone(), line }),
                        None => None,
                    },
                    None => None,
                };
                Ok((doc, append))
            },
            None => Err(StoreError::CollectionNotFound),
        }
    }

    /// Declares an empty index `index` on the field `key` in the collection
    /// `name`. The documents that the collection holds are not entered.
    pub fn create_index(&mut self, name: &str, index: String, key: String) -> (outcome: Result<
        (),
        StoreError,
    >)
        requires
            old(self).wf(),
        ensures
            final(self).wf(),
            match outcome {
                Ok(_) => lookup(old(self)@, name@) matches Some(c) && !present(c.indexes, index@)
                    && final(self)@ == put(old(self)@, name@, c.declare(index@, key@)),
                Err(e) => final(self)@ == old(self)@ && match lookup(old(self)@, name@) {
                    Some(c) => e == StoreError::IndexConflict && present(c.indexes, index@),
                    None => e == StoreError::CollectionNotFound,
                },
            },
    {
        match self.locate(name) {
            Some(i) => {
                let ghost before = self@;
                let ghost c = self.collections@[i as int]@;
                match self.collections[i].create_index(index, key) {
                    Ok(_) => {
                        proof {
                            lemma_changed(before, self@, name@, i as int, c.declare(index@, key@));
                        }
                        Ok(())
                    },
                    Err(e) => {
                        proof {
                            assert(self@ =~= before);
                        }
                        Err(e)
                    },
                }
            },
            None => Err(StoreError::CollectionNotFound),
        }
    }

    /// What to write to compact the log of the collection `name`: the text of
    /// every document that it holds, to a scratch file that then takes the
    /// place of the log.
    pub fn compact_collection(&self, name: &str) -> (outcome: Result<Compaction, StoreError>)
        requires
            self.wf(),
        ensures
            match outcome {
                Ok(compaction) => lookup(self@, name@) matches Some(c) && c.file == Some(
                    compaction.file@,
                ) && compaction.scratch@ == scratch_path(compaction.file@) && lines_view(
                    compaction.lines@,
                ) == c.compacted(),
                Err(e) => match lookup(self@, name@) {
                    Some(c) => e == StoreError::LogNotFound && c.file is None,
                    None => e == StoreError::CollectionNotFound,
                },
            },
    {
        match self.locate(name) {
            Some(i) => match self.collections[i].file() {
                Some(file) => {
                    let mut scratch = file.clone();
                    scratch.append("~");
                    let lines = self.collections[i].compacted();
                    Ok(Compaction { file: file.clone(), scratch, lines })
                },
                None => Err(StoreError::LogNotFound),
            },
            None => Err(StoreError::CollectionNotFound),
        }
    }
}

/// The key that is asked for: the one given, or the sentinel.
pub open spec fn key_view(key: Option<&str>) -> Text {
    match key {
        Some(key) => key@,
        None => sentinel(),
    }
}

/// A registry in which one collection changed, and kept its name, is the old
/// one with the new collection put under that name.
proof fn lemma_changed(
    before: RegistryModel,
    after: RegistryModel,
    name: Text,
    i: int,
    c: CollectionModel,
)
    requires
        registry_inv(before),
        0 <= i < before.len(),
        before[i].0 == name,
        after.len() == before.len(),
        after[i] == (name, c),
        c.inv(),
        c.name == name,
        forall|j: int| 0 <= j < before.len() && j != i ==> after[j] == before[j],
    ensures
        after == put(before, name, c),
        registry_inv(after),
{
    lemma_at(before, name, i);
    lemma_put(before, name, c);
    assert(after =~= put(before, name, c));
    assert forall|a: int| 0 <= a < after.len() implies (#[trigger] after[a]).1.inv() && after[a].0
        == after[a].1.name by {
        if a != i {
            assert(before[a].1.inv());
        }
    }
}

/// A replay leaves the name of the collection as it is.
pub proof fn lemma_replay_keeps_name(c: CollectionModel, lines: Seq<Text>)
    ensures
        replay(c, lines) matches Ok(after) ==> after.name == c.name && after.file == c.file,
    decreases lines.len(),
{
    if lines.len() > 0 {
        lemma_replay_keeps_name(c, lines.drop_last());
    }
}

} // verus!
