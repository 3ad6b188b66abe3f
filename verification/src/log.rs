//! The log of a collection: one record on each line, replayed in order to
//! rebuild the collection.

use crate::assoc::Text;
use crate::codec::json_parse;
use crate::codec::parse_json;
use crate::collection::Collection;
use crate::collection::CollectionModel;
use crate::collection::insert_into_collection;
use crate::collection::lines_view;
use crate::collection::remove_from_collection;
use crate::error::StoreError;
use crate::json::Json;
use crate::json::JsonValue;
use crate::json::lemma_members_map_dom;
use crate::json::lemma_members_map_last;
use crate::json::members_map;
use crate::json::members_view;
use vstd::prelude::*;

verus! {

/// The member that holds the identifier of a record.
pub open spec fn id_member() -> Text {
    "_id"@
}

/// The member that marks a record as a tombstone.
pub open spec fn deleted_member() -> Text {
    "$$deleted"@
}

/// The member that marks a record of an older format, which is passed over.
pub open spec fn index_created_member() -> Text {
    "$$indexCreated"@
}

/// What a record asks for.
pub enum Record {
    /// Nothing: a record of an older format.
    Ignored,
    /// To delete the document under the identifier.
    Tombstone(Text),
    /// To store the record itself as the document under the identifier.
    Upsert(Text),
}

/// The record that marks the deletion of the document under `id`.
pub open spec fn tombstone(id: Text) -> JsonValue {
    JsonValue::Object(
        members_map(
            seq![(deleted_member(), JsonValue::Bool(true)), (id_member(), JsonValue::String(id))],
        ),
    )
}

/// Reads a record: one that carries the marker of the older format, whatever
/// stands under it, is passed over; otherwise the record must hold its
/// identifier as a string, and is a tombstone if it holds a boolean under the
/// deletion marker, an upsert if not. `None` for a record without identifier.
pub open spec fn classify(doc: JsonValue) -> Option<Record> {
    if doc.field(index_created_member()) is Some {
        Some(Record::Ignored)
    } else {
        match doc.text_at(id_member()) {
            None => None,
            Some(id) => if doc.has_bool_at(deleted_member()) {
                Some(Record::Tombstone(id))
            } else {
                Some(Record::Upsert(id))
            },
        }
    }
}

/// The collection after a record is applied; `None` for a record without
/// identifier.
pub open spec fn apply_record(c: CollectionModel, doc: JsonValue) -> Option<CollectionModel> {
    match classify(doc) {
        None => None,
        Some(Record::Ignored) => Some(c),
        Some(Record::Tombstone(id)) => Some(c.remove(id)),
        Some(Record::Upsert(id)) => Some(c.insert(id, doc)),
    }
}

/// The collection after one line of the log is applied: an empty line changes
/// nothing, any other line must read as a record. `None` for a line that is
/// not JSON or whose record has no identifier.
pub open spec fn apply_line(c: CollectionModel, line: Text) -> Option<CollectionModel> {
    if line.len() == 0 {
        Some(c)
    } else {
        match json_parse(line) {
            Some(doc) => apply_record(c, doc),
            None => None,
        }
    }
}

/// The collection after the lines are applied in order, or the number of the
/// first line that cannot be applied.
pub open spec fn replay(c: CollectionModel, lines: Seq<Text>) -> Result<CollectionModel, int>
    decreases lines.len(),
{
    if lines.len() == 0 {
        Ok(c)
    } else {
        match replay(c, lines.drop_last()) {
            Err(bad) => Err(bad),
            Ok(mid) => match apply_line(mid, lines.last()) {
                Some(next) => Ok(next),
                None => Err(lines.len() - 1),
            },
        }
    }
}

/// The collection after the records are applied in order, or the number of the
/// first record without identifier.
pub open spec fn replay_records(c: CollectionModel, records: Seq<JsonValue>) -> Result<
    CollectionModel,
    int,
>
    decreases records.len(),
{
    if records.len() == 0 {
        Ok(c)
    } else {
        match replay_records(c, records.drop_last()) {
            Err(bad) => Err(bad),
            Ok(mid) => match apply_record(mid, records.last()) {
                Some(next) => Ok(next),
                None => Err(records.len() - 1),
            },
        }
    }
}

/// A tombstone reads as the deletion of its identifier.
pub proof fn lemma_tombstone_classified(id: Text)
    ensures
        classify(tombstone(id)) == Some(Record::Tombstone(id)),
{
    reveal_strlit("_id");
    reveal_strlit("$$deleted");
    reveal_strlit("$$indexCreated");
    let members = seq![
        (deleted_member(), JsonValue::Bool(true)),
        (id_member(), JsonValue::String(id)),
    ];
    assert(deleted_member().len() == 9);
    assert(id_member().len() == 3);
    assert(index_created_member().len() == 14);
    lemma_members_map_dom(members);
    lemma_members_map_last(members, 0);
    lemma_members_map_last(members, 1);
    assert(!members_map(members).contains_key(index_created_member())) by {
        if members_map(members).contains_key(index_created_member()) {
            let i = choose|i: int|
                0 <= i < members.len() && members[i].0 == index_created_member();
            assert(members[i].0.len() == 14);
        }
    }
}

/// The record that marks the deletion of the document under `id`.
pub fn tombstone_record(id: &str) -> (record: Json)
    ensures
        record@ == tombstone(id@),
{
    let mut members: Vec<(String, Json)> = Vec::new();
    members.push(("$$deleted".to_owned(), Json::Bool(true)));
    members.push(("_id".to_owned(), Json::String(id.to_owned())));
    proof {
        assert(members_view(members@) =~= seq![
            (deleted_member(), JsonValue::Bool(true)),
            (id_member(), JsonValue::String(id@)),
        ]);
    }
    Json::Object(members)
}

/// Applies one record to a collection, without logging it. Hands back `false`,
/// and leaves the collection as it was, for a record without identifier.
pub fn apply(collection: &mut Collection, record: Json) -> (applied: bool)
    requires
        old(collection).wf(),
    ensures
        final(collection).wf(),
        match apply_record(old(collection)@, record@) {
            Some(next) => applied && final(collection)@ == next,
            None => !applied && final(collection)@ == old(collection)@,
        },
{
    if record.get("$$indexCreated").is_some() {
        return true;
    }
    let id = match record.text_at("_id") {
        Some(id) => id.clone(),
        None => {
            return false;
        },
    };
    if record.has_bool_at("$$deleted") {
        let _ = remove_from_collection(collection, id, false);
    } else {
        let _ = insert_into_collection(collection, id, record, false);
    }
    true
}

/// Replays the lines of a log into a collection, in order: an empty line is
/// passed over, every other line is read as a record and applied, without
/// logging it again. Stops at the first line that is not a record and reports
/// its number; the collection then holds what the lines before it gave.
pub fn replay_log(collection: &mut Collection, lines: &Vec<String>) -> (outcome: Result<
    (),
    StoreError,
>)
    requires
        old(collection).wf(),
    ensures
        final(collection).wf(),
        match outcome {
            Ok(_) => replay(old(collection)@, lines_view(lines@)) == Ok::<CollectionModel, int>(
                final(collection)@,
            ),
            Err(e) => exists|bad: int|
                0 <= bad < lines@.len() && e == (StoreError::MalformedRecord { line: bad as usize })
                    && replay(old(collection)@, lines_view(lines@)) == Err::<CollectionModel, int>(
                    bad,
                ) && replay(old(collection)@, lines_view(lines@).take(bad)) == Ok::<
                    CollectionModel,
                    int,
                >(final(collection)@),
        },
{
    let ghost start = collection@;
    let ghost all = lines_view(lines@);
    let mut i: usize = 0;
    proof {
        assert(all.take(0) =~= Seq::<Text>::empty());
    }
    while i < lines.len()
        invariant
            collection.wf(),
            start == old(collection)@,
            all == lines_view(lines@),
            i <= lines@.len(),
            replay(start, all.take(i as int)) == Ok::<CollectionModel, int>(collection@),
        decreases lines@.len() - i,
    {
        let ghost mid = collection@;
        proof {
            assert(all.take(i + 1).drop_last() =~= all.take(i as int));
            assert(all.take(i + 1).last() == lines@[i as int]@);
        }
        let line = lines[i].as_str();
        if !line.is_empty() {
            let applied = match parse_json(line) {
                Some(record) => apply(collection, record),
                None => false,
            };
            if !applied {
                proof {
                    assert(collection@ == mid);
                    assert(all[i as int] == lines@[i as int]@);
                    assert(apply_line(mid, all[i as int]) is None);
                    lemma_replay_stuck(start, all, i as int);
                    assert(replay(start, all) == Err::<CollectionModel, int>(i as int));
                }
                return Err(StoreError::MalformedRecord { line: i });
            }
        }
        i += 1;
    }
    proof {
        assert(all.take(i as int) =~= all);
    }
    Ok(())
}

/// A replay that cannot apply line `bad` after the lines before it reports
/// `bad`, however many lines follow.
pub proof fn lemma_replay_stuck(c: CollectionModel, lines: Seq<Text>, bad: int)
    requires
        0 <= bad < lines.len(),
        replay(c, lines.take(bad)) is Ok,
        apply_line(replay(c, lines.take(bad))->Ok_0, lines[bad]) is None,
    ensures
        replay(c, lines) == Err::<CollectionModel, int>(bad),
    decreases lines.len(),
{
    if lines.len() == bad + 1 {
        assert(lines.drop_last() =~= lines.take(bad));
    } else {
        assert(lines.drop_last().take(bad) =~= lines.take(bad));
        lemma_replay_stuck(c, lines.drop_last(), bad);
    }
}

} // verus!
