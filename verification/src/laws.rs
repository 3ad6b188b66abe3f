//! What holds of the store as a whole, proved over the models in which the
//! contracts of its operations are stated.

use crate::assoc::at;
use crate::assoc::lemma_absent;
use crate::assoc::lemma_at;
use crate::assoc::lemma_del;
use crate::assoc::lemma_put;
use crate::assoc::lookup;
use crate::assoc::present;
use crate::assoc::put;
use crate::assoc::Text;
use crate::codec::json_parse;
use crate::codec::json_text;
use crate::collection::CollectionModel;
use crate::collection::complete;
use crate::collection::enter;
use crate::collection::fetch;
use crate::collection::index_key;
use crate::collection::leave;
use crate::collection::lemma_enter_sound;
use crate::collection::lemma_insert_inv;
use crate::collection::lemma_leave_sound;
use crate::collection::lemma_names_kept;
use crate::collection::lemma_remove_doc_inv;
use crate::collection::sentinel;
use crate::collection::sound;
use crate::index::IndexModel;
use crate::json::JsonValue;
use crate::log::apply_record;
use crate::log::classify;
use crate::log::lemma_tombstone_classified;
use crate::log::Record;
use crate::log::replay;
use crate::log::replay_records;
use crate::log::tombstone;
use vstd::prelude::*;

verus! {

/// A document that was stored under an identifier is the one that is found
/// there.
pub proof fn law_insert_then_retrieve(c: CollectionModel, id: Text, doc: JsonValue)
    requires
        c.inv(),
    ensures
        c.insert(id, doc).get(id) == Some(doc),
        forall|other: Text| other != id ==> c.insert(id, doc).get(other) == c.get(other),
{
    lemma_put(c.docs, id, doc);
}

/// After the document under an identifier is deleted, none is found there.
pub proof fn law_delete_then_retrieve(c: CollectionModel, id: Text)
    requires
        c.inv(),
    ensures
        c.remove(id).get(id) is None,
        forall|other: Text| other != id ==> c.remove(id).get(other) == c.get(other),
{
    lemma_del(c.docs, id);
}

/// The index `name` of the collection after `doc` is stored under `id` is the
/// index of before, with `id` moved to the bucket of `doc`.
pub proof fn lemma_index_after_insert(c: CollectionModel, name: Text, id: Text, doc: JsonValue)
    requires
        c.inv(),
        present(c.indexes, name),
    ensures
        lookup(c.insert(id, doc).indexes, name) == Some(
            enter(lookup(c.indexes, name)->0, c.get(id), id, doc),
        ),
        lookup(c.indexes, name)->0.inv(),
        sound(lookup(c.indexes, name)->0, c.docs),
{
    let after = c.insert(id, doc);
    let x = at(c.indexes, name);
    assert(c.indexes[x].0 == name);
    assert(c.indexes[x].1.inv());
    lemma_insert_inv(c, id, doc);
    assert(after.indexes[x].0 == name);
    lemma_at(after.indexes, name, x);
}

/// The index `name` of the collection after the document under `id` is
/// deleted is the index of before, with `id` taken out.
pub proof fn lemma_index_after_remove(c: CollectionModel, name: Text, id: Text)
    requires
        c.inv(),
        present(c.indexes, name),
        present(c.docs, id),
    ensures
        lookup(c.remove(id).indexes, name) == Some(
            leave(lookup(c.indexes, name)->0, c.get(id)->0, id),
        ),
        lookup(c.indexes, name)->0.inv(),
        sound(lookup(c.indexes, name)->0, c.docs),
{
    let after = c.remove(id);
    let x = at(c.indexes, name);
    assert(c.indexes[x].0 == name);
    assert(c.indexes[x].1.inv());
    lemma_remove_doc_inv(c, id);
    assert(after.indexes[x].0 == name);
    lemma_at(after.indexes, name, x);
}

/// Once a document is stored, a query of any index for the key of the
/// document finds it, and its identifier stands under no other key.
pub proof fn law_indexed_after_insert(c: CollectionModel, name: Text, id: Text, doc: JsonValue)
    requires
        c.inv(),
        present(c.indexes, name),
    ensures
        ({
            let index = lookup(c.insert(id, doc).indexes, name)->0;
            &&& index.field == lookup(c.indexes, name)->0.field
            &&& index.bucket(index_key(doc, index.field)).contains(id)
            &&& c.insert(id, doc).query(name, index_key(doc, index.field))->0.contains(doc)
            &&& forall|key: Text|
                key != index_key(doc, index.field) ==> !(#[trigger] index.bucket(key)).contains(id)
        }),
{
    let before = lookup(c.indexes, name)->0;
    let after = c.insert(id, doc);
    lemma_index_after_insert(c, name, id, doc);
    lemma_enter_sound(before, c.docs, id, doc);
    lemma_put(c.docs, id, doc);
    let index = lookup(after.indexes, name)->0;
    let key = index_key(doc, index.field);
    let ids = index.bucket(key);
    let i = ids.index_of(id);
    assert(ids[i] == id);
    assert(fetch(after.docs, ids)[i] == doc);
}

/// Once a document is deleted, its identifier stands in no bucket of any
/// index.
pub proof fn law_unindexed_after_delete(c: CollectionModel, name: Text, id: Text)
    requires
        c.inv(),
        present(c.indexes, name),
        present(c.docs, id),
    ensures
        forall|key: Text|
            !(#[trigger] lookup(c.remove(id).indexes, name)->0.bucket(key)).contains(id),
{
    lemma_index_after_remove(c, name, id);
    lemma_leave_sound(lookup(c.indexes, name)->0, c.docs, id);
}

/// An index that is declared while the collection holds no document is
/// complete.
pub proof fn law_declared_on_empty_is_complete(c: CollectionModel, name: Text, field: Text)
    requires
        c.inv(),
        c.docs.len() == 0,
    ensures
        lookup(c.declare(name, field).indexes, name) == Some(IndexModel::empty(field)),
        complete(IndexModel::empty(field), c.declare(name, field).docs),
{
    lemma_put(c.indexes, name, IndexModel::empty(field));
}

/// Storing a document keeps a complete index complete.
pub proof fn law_complete_after_insert(c: CollectionModel, name: Text, id: Text, doc: JsonValue)
    requires
        c.inv(),
        present(c.indexes, name),
        complete(lookup(c.indexes, name)->0, c.docs),
    ensures
        complete(lookup(c.insert(id, doc).indexes, name)->0, c.insert(id, doc).docs),
{
    let before = lookup(c.indexes, name)->0;
    let after = c.insert(id, doc);
    lemma_index_after_insert(c, name, id, doc);
    lemma_enter_sound(before, c.docs, id, doc);
    lemma_put(c.docs, id, doc);
    let index = lookup(after.indexes, name)->0;
    assert forall|i: int| 0 <= i < after.docs.len() implies index.bucket(
        index_key((#[trigger] after.docs[i]).1, index.field),
    ).contains(after.docs[i].0) by {
        let other = after.docs[i].0;
        if other != id {
            if present(c.docs, id) {
                assert(c.docs[at(c.docs, id)].0 == id);
            }
            assert(after.docs[i] == c.docs[i]);
            assert(before.bucket(index_key(c.docs[i].1, before.field)).contains(c.docs[i].0));
        } else {
            lemma_at(after.docs, id, i);
        }
    }
}

/// Deleting a document keeps a complete index complete.
pub proof fn law_complete_after_delete(c: CollectionModel, name: Text, id: Text)
    requires
        c.inv(),
        present(c.indexes, name),
        complete(lookup(c.indexes, name)->0, c.docs),
    ensures
        complete(lookup(c.remove(id).indexes, name)->0, c.remove(id).docs),
{
    if present(c.docs, id) {
        let before = lookup(c.indexes, name)->0;
        let after = c.remove(id);
        lemma_index_after_remove(c, name, id);
        lemma_leave_sound(before, c.docs, id);
        lemma_del(c.docs, id);
        let index = lookup(after.indexes, name)->0;
        let p = at(c.docs, id);
        assert(c.docs[p].0 == id);
        assert forall|i: int| 0 <= i < after.docs.len() implies index.bucket(
            index_key((#[trigger] after.docs[i]).1, index.field),
        ).contains(after.docs[i].0) by {
            let j = if i < p { i } else { i + 1 };
            assert(after.docs[i] == c.docs[j]);
            if j < p {
                assert(c.docs[j].0 != c.docs[p].0);
            } else {
                assert(c.docs[p].0 != c.docs[j].0);
            }
            assert(before.bucket(index_key(c.docs[j].1, before.field)).contains(c.docs[j].0));
        }
    }
}

/// In a complete index, a query for the key of any document of the
/// collection finds that document.
pub proof fn law_index_consistency(c: CollectionModel, name: Text, id: Text)
    requires
        c.inv(),
        present(c.indexes, name),
        complete(lookup(c.indexes, name)->0, c.docs),
        present(c.docs, id),
    ensures
        ({
            let index = lookup(c.indexes, name)->0;
            let doc = c.get(id)->0;
            &&& index.bucket(index_key(doc, index.field)).contains(id)
            &&& c.query(name, index_key(doc, index.field))->0.contains(doc)
        }),
{
    let index = lookup(c.indexes, name)->0;
    let p = at(c.docs, id);
    assert(c.docs[p].0 == id);
    lemma_at(c.docs, id, p);
    let doc = c.docs[p].1;
    let ids = index.bucket(index_key(doc, index.field));
    assert(ids.contains(id));
    let i = ids.index_of(id);
    assert(ids[i] == id);
    assert(fetch(c.docs, ids)[i] == doc);
}

/// A document that holds no text under the indexed field is found under the
/// sentinel.
pub proof fn law_sentinel(c: CollectionModel, name: Text, id: Text, doc: JsonValue)
    requires
        c.inv(),
        present(c.indexes, name),
        doc.text_at(lookup(c.indexes, name)->0.field) is None,
    ensures
        lookup(c.insert(id, doc).indexes, name)->0.bucket(sentinel()).contains(id),
        c.insert(id, doc).query(name, sentinel())->0.contains(doc),
{
    law_indexed_after_insert(c, name, id, doc);
}

/// Storing a second document under an identifier moves the identifier from
/// the bucket of the first to the bucket of the second.
pub proof fn law_upsert_reindexes(
    c: CollectionModel,
    name: Text,
    id: Text,
    first: JsonValue,
    second: JsonValue,
)
    requires
        c.inv(),
        present(c.indexes, name),
        index_key(first, lookup(c.indexes, name)->0.field) != index_key(
            second,
            lookup(c.indexes, name)->0.field,
        ),
    ensures
        ({
            let field = lookup(c.indexes, name)->0.field;
            let index = lookup(c.insert(id, first).insert(id, second).indexes, name)->0;
            &&& !index.bucket(index_key(first, field)).contains(id)
            &&& index.bucket(index_key(second, field)).contains(id)
        }),
{
    let mid = c.insert(id, first);
    lemma_insert_inv(c, id, first);
    law_indexed_after_insert(c, name, id, first);
    lemma_index_after_insert(c, name, id, first);
    law_indexed_after_insert(mid, name, id, second);
}

/// An operation on the documents of a collection.
pub enum Op {
    /// Store the document under the identifier.
    Insert(Text, JsonValue),
    /// Delete the document under the identifier.
    Delete(Text),
    /// Look up the document under the identifier, with the sample to record.
    Retrieve(Text, (u64, u64)),
}

/// The collection after the operation.
pub open spec fn step(c: CollectionModel, op: Op) -> CollectionModel {
    match op {
        Op::Insert(id, doc) => c.insert(id, doc),
        Op::Delete(id) => c.remove(id),
        Op::Retrieve(id, sample) => c.record(sample),
    }
}

/// The collection after the operations, in order.
pub open spec fn run(c: CollectionModel, ops: Seq<Op>) -> CollectionModel
    decreases ops.len(),
{
    if ops.len() == 0 {
        c
    } else {
        step(run(c, ops.drop_last()), ops.last())
    }
}

/// The records that the operation appends to the log: the document that is
/// stored, a tombstone for a document that is deleted, nothing otherwise.
pub open spec fn logged_by(c: CollectionModel, op: Op) -> Seq<JsonValue> {
    match op {
        Op::Insert(id, doc) => seq![doc],
        Op::Delete(id) => if c.get(id) is Some {
            seq![tombstone(id)]
        } else {
            Seq::empty()
        },
        Op::Retrieve(id, sample) => Seq::empty(),
    }
}

/// The records that the operations append to the log, in order.
pub open spec fn log_of(c: CollectionModel, ops: Seq<Op>) -> Seq<JsonValue>
    decreases ops.len(),
{
    if ops.len() == 0 {
        Seq::empty()
    } else {
        log_of(c, ops.drop_last()) + logged_by(run(c, ops.drop_last()), ops.last())
    }
}

/// The document reads as an upsert of `id`: it holds `id` as its identifier
/// and carries neither marker.
pub open spec fn carries(doc: JsonValue, id: Text) -> bool {
    classify(doc) == Some(Record::Upsert(id))
}

/// Every document that the operations store carries the identifier under
/// which it is stored.
pub open spec fn well_keyed(ops: Seq<Op>) -> bool {
    forall|i: int|
        0 <= i < ops.len() ==> ((#[trigger] ops[i]) matches Op::Insert(id, doc) ==> carries(
            doc,
            id,
        ))
}

/// Two collections hold the same documents and the same indexes.
pub open spec fn same_content(a: CollectionModel, b: CollectionModel) -> bool {
    a.docs == b.docs && a.indexes == b.indexes
}

/// The texts of the records, one line each.
pub open spec fn lines_of(records: Seq<JsonValue>) -> Seq<Text> {
    Seq::new(records.len(), |i: int| json_text(records[i]))
}

/// The text of the record is a line that reads as the record again.
pub open spec fn survives(record: JsonValue) -> bool {
    json_text(record).len() > 0 && json_parse(json_text(record)) == Some(record)
}

/// Replaying two runs of records one after the other is replaying the second
/// from where the first ended.
pub proof fn lemma_replay_records_append(
    c: CollectionModel,
    first: Seq<JsonValue>,
    second: Seq<JsonValue>,
)
    requires
        replay_records(c, first) is Ok,
        replay_records(replay_records(c, first)->Ok_0, second) is Ok,
    ensures
        replay_records(c, first + second) == replay_records(
            replay_records(c, first)->Ok_0,
            second,
        ),
    decreases second.len(),
{
    if second.len() == 0 {
        assert(first + second =~= first);
    } else {
        assert((first + second).drop_last() =~= first + second.drop_last());
        lemma_replay_records_append(c, first, second.drop_last());
    }
}

/// Replaying one record is applying it.
pub proof fn lemma_replay_one(c: CollectionModel, record: JsonValue)
    ensures
        replay_records(c, seq![record]) == match apply_record(c, record) {
            Some(next) => Ok::<CollectionModel, int>(next),
            None => Err::<CollectionModel, int>(0),
        },
{
    let one = seq![record];
    assert(one.drop_last() =~= Seq::<JsonValue>::empty());
    assert(one.last() == record);
    assert(replay_records(c, one.drop_last()) == Ok::<CollectionModel, int>(c));
}

/// Replay equivalence: replaying the records that a run of operations has
/// logged, onto a collection with the documents and indexes that the run
/// started from, gives the documents and indexes that the run ended with.
pub proof fn law_replay_equivalence(start: CollectionModel, twin: CollectionModel, ops: Seq<Op>)
    requires
        start.inv(),
        twin.inv(),
        same_content(start, twin),
        well_keyed(ops),
    ensures
        run(start, ops).inv(),
        replay_records(twin, log_of(start, ops)) matches Ok(rebuilt) && rebuilt.inv()
            && same_content(run(start, ops), rebuilt),
    decreases ops.len(),
{
    if ops.len() > 0 {
        let earlier = ops.drop_last();
        assert forall|i: int| 0 <= i < earlier.len() implies (
        (#[trigger] earlier[i]) matches Op::Insert(id, doc) ==> carries(doc, id)) by {
            assert(earlier[i] == ops[i]);
        }
        law_replay_equivalence(start, twin, earlier);
        let live = run(start, earlier);
        let rebuilt = replay_records(twin, log_of(start, earlier))->Ok_0;
        let op = ops.last();
        let tail = logged_by(live, op);
        match op {
            Op::Insert(id, doc) => {
                assert(carries(doc, id));
                lemma_insert_inv(live, id, doc);
                lemma_insert_inv(rebuilt, id, doc);
                lemma_replay_one(rebuilt, doc);
            },
            Op::Delete(id) => {
                lemma_remove_doc_inv(live, id);
                lemma_remove_doc_inv(rebuilt, id);
                if live.get(id) is Some {
                    lemma_tombstone_classified(id);
                    lemma_replay_one(rebuilt, tombstone(id));
                }
            },
            Op::Retrieve(id, sample) => {
                lemma_record_inv(live, sample);
            },
        }
        lemma_replay_records_append(twin, log_of(start, earlier), tail);
    }
}

/// Recording a sample keeps a collection well formed.
pub proof fn lemma_record_inv(c: CollectionModel, sample: (u64, u64))
    requires
        c.inv(),
    ensures
        c.record(sample).inv(),
{
    let after = c.record(sample);
    assert forall|x: int| 0 <= x < after.indexes.len() implies (#[trigger] after.indexes[x]).1.inv()
        && sound(after.indexes[x].1, after.docs) by {
        assert(c.indexes[x].1.inv());
    }
}

/// Replaying lines whose records survive as text is replaying the records.
pub proof fn law_replay_of_text(c: CollectionModel, records: Seq<JsonValue>)
    requires
        forall|i: int| 0 <= i < records.len() ==> survives(#[trigger] records[i]),
    ensures
        replay(c, lines_of(records)) == replay_records(c, records),
    decreases records.len(),
{
    if records.len() > 0 {
        let earlier = records.drop_last();
        assert forall|i: int| 0 <= i < earlier.len() implies survives(#[trigger] earlier[i]) by {
            assert(earlier[i] == records[i]);
        }
        law_replay_of_text(c, earlier);
        assert(lines_of(records).drop_last() =~= lines_of(earlier));
        assert(survives(records[records.len() - 1]));
    }
}

/// Compaction preserves content: replaying the documents of a collection, each
/// of which carries its identifier, into a collection without documents gives
/// the same documents in the same order; and no record of them is a tombstone.
pub proof fn law_compaction_preserves(c: CollectionModel, fresh: CollectionModel)
    requires
        c.inv(),
        fresh.inv(),
        fresh.docs.len() == 0,
        forall|i: int| 0 <= i < c.docs.len() ==> carries((#[trigger] c.docs[i]).1, c.docs[i].0),
    ensures
        replay_records(fresh, c.documents()) matches Ok(rebuilt) && rebuilt.inv() && rebuilt.docs
            == c.docs,
        forall|i: int|
            0 <= i < c.documents().len() ==> !(classify(#[trigger] c.documents()[i]) matches Some(
                Record::Tombstone(_),
            )),
{
    lemma_compaction_prefix(c, fresh, c.docs.len() as int);
    assert(c.documents().take(c.docs.len() as int) =~= c.documents());
    assert(c.docs.take(c.docs.len() as int) =~= c.docs);
    assert forall|i: int| 0 <= i < c.documents().len() implies !(classify(
        #[trigger] c.documents()[i],
    ) matches Some(Record::Tombstone(_))) by {
        assert(carries(c.docs[i].1, c.docs[i].0));
    }
}

/// The first `n` documents of a collection, replayed into a collection
/// without documents, give those `n` documents.
proof fn lemma_compaction_prefix(c: CollectionModel, fresh: CollectionModel, n: int)
    requires
        c.inv(),
        fresh.inv(),
        fresh.docs.len() == 0,
        0 <= n <= c.docs.len(),
        forall|i: int| 0 <= i < c.docs.len() ==> carries((#[trigger] c.docs[i]).1, c.docs[i].0),
    ensures
        replay_records(fresh, c.documents().take(n)) matches Ok(rebuilt) && rebuilt.inv()
            && rebuilt.docs == c.docs.take(n),
    decreases n,
{
    let records = c.documents().take(n);
    if n == 0 {
        assert(fresh.docs =~= c.docs.take(0));
    } else {
        lemma_compaction_prefix(c, fresh, n - 1);
        assert(records.drop_last() =~= c.documents().take(n - 1));
        let mid = replay_records(fresh, c.documents().take(n - 1))->Ok_0;
        let id = c.docs[n - 1].0;
        let doc = c.docs[n - 1].1;
        assert(records.last() == doc);
        assert(carries(doc, id));
        lemma_insert_inv(mid, id, doc);
        assert forall|j: int| 0 <= j < mid.docs.len() implies (#[trigger] mid.docs[j]).0 != id by {
            assert(c.docs[j].0 != c.docs[n - 1].0);
        }
        lemma_absent(mid.docs, id);
        assert(put(mid.docs, id, doc) =~= c.docs.take(n));
    }
}

/// Applying a record keeps a collection well formed.
pub proof fn lemma_apply_record_inv(c: CollectionModel, record: JsonValue)
    requires
        c.inv(),
    ensures
        apply_record(c, record) matches Some(next) ==> next.inv(),
{
    match classify(record) {
        Some(Record::Tombstone(id)) => {
            lemma_remove_doc_inv(c, id);
        },
        Some(Record::Upsert(id)) => {
            lemma_insert_inv(c, id, record);
        },
        _ => {},
    }
}

/// A replay keeps a collection well formed.
pub proof fn law_replay_inv(c: CollectionModel, lines: Seq<Text>)
    requires
        c.inv(),
    ensures
        replay(c, lines) matches Ok(after) ==> after.inv(),
    decreases lines.len(),
{
    if lines.len() > 0 {
        law_replay_inv(c, lines.drop_last());
        match replay(c, lines.drop_last()) {
            Ok(mid) => {
                if lines.last().len() > 0 {
                    match json_parse(lines.last()) {
                        Some(record) => {
                            lemma_apply_record_inv(mid, record);
                        },
                        None => {},
                    }
                }
            },
            Err(_) => {},
        }
    }
}

/// Replaying a log to which lines were appended is replaying the appended
/// lines from where the replay of the log ended.
pub proof fn law_replay_append(c: CollectionModel, log: Seq<Text>, appended: Seq<Text>)
    requires
        replay(c, log) is Ok,
        replay(replay(c, log)->Ok_0, appended) is Ok,
    ensures
        replay(c, log + appended) == replay(replay(c, log)->Ok_0, appended),
    decreases appended.len(),
{
    if appended.len() == 0 {
        assert(log + appended =~= log);
    } else {
        assert((log + appended).drop_last() =~= log + appended.drop_last());
        law_replay_append(c, log, appended.drop_last());
    }
}

/// Restart: a collection that was built by replaying its log, and then went
/// through a run of operations whose records were appended to the log as
/// lines, is rebuilt by replaying the whole log, with the same documents and
/// indexes. This holds where every stored document carries its identifier and
/// every logged record survives as text.
pub proof fn law_restart(created: CollectionModel, log: Seq<Text>, ops: Seq<Op>)
    requires
        created.inv(),
        replay(created, log) is Ok,
        well_keyed(ops),
        forall|i: int|
            0 <= i < log_of(replay(created, log)->Ok_0, ops).len() ==> survives(
                #[trigger] log_of(replay(created, log)->Ok_0, ops)[i],
            ),
    ensures
        ({
            let live = replay(created, log)->Ok_0;
            replay(created, log + lines_of(log_of(live, ops))) matches Ok(rebuilt) && same_content(
                run(live, ops),
                rebuilt,
            )
        }),
{
    let live = replay(created, log)->Ok_0;
    let records = log_of(live, ops);
    law_replay_inv(created, log);
    law_replay_equivalence(live, live, ops);
    law_replay_of_text(live, records);
    law_replay_append(created, log, lines_of(records));
}

/// Compaction preserves content, as text: where every document of a
/// collection carries its identifier and survives as text, replaying the
/// compacted lines into a collection without documents gives the same
/// documents in the same order.
pub proof fn law_compaction_of_text(c: CollectionModel, fresh: CollectionModel)
    requires
        c.inv(),
        fresh.inv(),
        fresh.docs.len() == 0,
        forall|i: int| 0 <= i < c.docs.len() ==> carries((#[trigger] c.docs[i]).1, c.docs[i].0),
        forall|i: int| 0 <= i < c.docs.len() ==> survives((#[trigger] c.docs[i]).1),
    ensures
        replay(fresh, c.compacted()) matches Ok(rebuilt) && rebuilt.inv() && rebuilt.docs == c.docs,
{
    law_compaction_preserves(c, fresh);
    assert forall|i: int| 0 <= i < c.documents().len() implies survives(
        #[trigger] c.documents()[i],
    ) by {
        assert(survives(c.docs[i].1));
    }
    law_replay_of_text(fresh, c.documents());
    assert(c.compacted() =~= lines_of(c.documents()));
}

/// An index that is complete stays complete through any run of operations:
/// an index that was declared when the collection was created finds every
/// document under its key.
pub proof fn law_complete_after_run(c: CollectionModel, name: Text, ops: Seq<Op>)
    requires
        c.inv(),
        present(c.indexes, name),
        complete(lookup(c.indexes, name)->0, c.docs),
    ensures
        run(c, ops).inv(),
        present(run(c, ops).indexes, name),
        complete(lookup(run(c, ops).indexes, name)->0, run(c, ops).docs),
    decreases ops.len(),
{
    if ops.len() > 0 {
        law_complete_after_run(c, name, ops.drop_last());
        let mid = run(c, ops.drop_last());
        match ops.last() {
            Op::Insert(id, doc) => {
                lemma_insert_inv(mid, id, doc);
                lemma_names_kept(mid.indexes, mid.insert(id, doc).indexes, name);
                law_complete_after_insert(mid, name, id, doc);
            },
            Op::Delete(id) => {
                lemma_remove_doc_inv(mid, id);
                lemma_names_kept(mid.indexes, mid.remove(id).indexes, name);
                law_complete_after_delete(mid, name, id);
            },
            Op::Retrieve(id, sample) => {
                lemma_record_inv(mid, sample);
            },
        }
    }
}

} // verus!
