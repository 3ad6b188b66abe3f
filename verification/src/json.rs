//! JSON documents as a tagged tree, and the projections that the store reads.

use crate::order::same_text;
use vstd::prelude::*;

verus! {

/// A JSON number, as `serde_json` holds it. The store carries numbers through
/// and never looks inside one.
#[verifier::external_type_specification]
#[verifier::external_body]
pub struct ExNumber(serde_json::Number);

/// `Clone` for `serde_json::Number`: the copy is the same number.
pub assume_specification[ <serde_json::Number as Clone>::clone ](n: &serde_json::Number) -> (res:
    serde_json::Number)
    ensures
        res == *n,
;

/// A JSON value.
///
/// The members of an object are held in a vector. Where a key occurs more than
/// once, the last occurrence is the member.
#[derive(Debug, PartialEq)]
pub enum Json {
    Null,
    Bool(bool),
    Number(serde_json::Number),
    String(String),
    Array(Vec<Json>),
    Object(Vec<(String, Json)>),
}

/// The mathematical value of a `Json`: an object is a finite map from keys to
/// values, so the order in which members were written does not count.
#[verifier::ext_equal]
pub enum JsonValue {
    Null,
    Bool(bool),
    Number(serde_json::Number),
    String(Seq<char>),
    Array(Seq<JsonValue>),
    Object(Map<Seq<char>, JsonValue>),
}

/// The map that a list of members stands for: each member is entered in turn,
/// so a later member replaces an earlier one of the same key.
pub open spec fn members_map<V>(members: Seq<(Seq<char>, V)>) -> Map<Seq<char>, V>
    decreases members.len(),
{
    if members.len() == 0 {
        Map::empty()
    } else {
        members_map(members.drop_last()).insert(members.last().0, members.last().1)
    }
}

/// The members of an object, each with the value that it stands for.
pub open spec fn members_view(members: Seq<(String, Json)>) -> Seq<(Seq<char>, JsonValue)>
    decreases members, 1int,
{
    Seq::new(members.len(), |i: int| member_view(members, i))
}

/// The member at `i`, with the value that it stands for.
pub open spec fn member_view(members: Seq<(String, Json)>, i: int) -> (Seq<char>, JsonValue)
    decreases members, 0int,
{
    if 0 <= i < members.len() {
        (members[i].0@, members[i].1.view())
    } else {
        (Seq::empty(), JsonValue::Null)
    }
}

/// The items of an array, each as the value that it stands for.
pub open spec fn items_view(items: Seq<Json>) -> Seq<JsonValue>
    decreases items, 1int,
{
    Seq::new(items.len(), |i: int| item_view(items, i))
}

/// The item at `i`, as the value that it stands for.
pub open spec fn item_view(items: Seq<Json>, i: int) -> JsonValue
    decreases items, 0int,
{
    if 0 <= i < items.len() {
        items[i].view()
    } else {
        JsonValue::Null
    }
}

/// Entering one more member at the end enters it into the map.
pub proof fn lemma_members_map_push<V>(members: Seq<(Seq<char>, V)>, member: (Seq<char>, V))
    ensures
        members_map(members.push(member)) == members_map(members).insert(member.0, member.1),
{
    assert(members.push(member).drop_last() =~= members);
}

/// The keys of the map are the keys of the members, so there are finitely many.
pub proof fn lemma_members_map_dom<V>(members: Seq<(Seq<char>, V)>)
    ensures
        members_map(members).dom().finite(),
        forall|k: Seq<char>|
            members_map(members).contains_key(k) <==> exists|i: int|
                0 <= i < members.len() && members[i].0 == k,
    decreases members.len(),
{
    if members.len() > 0 {
        let front = members.drop_last();
        lemma_members_map_dom(front);
        assert forall|k: Seq<char>|
            members_map(members).contains_key(k) <==> exists|i: int|
                0 <= i < members.len() && members[i].0 == k by {
            if members_map(members).contains_key(k) {
                if k == members.last().0 {
                    assert(members[members.len() - 1].0 == k);
                } else {
                    let i = choose|i: int| 0 <= i < front.len() && front[i].0 == k;
                    assert(members[i].0 == k);
                }
            }
            if exists|i: int| 0 <= i < members.len() && members[i].0 == k {
                let i = choose|i: int| 0 <= i < members.len() && members[i].0 == k;
                if i < members.len() - 1 {
                    assert(front[i].0 == k);
                }
            }
        }
    }
}

/// A member whose key no later member has is in the map with its value.
pub proof fn lemma_members_map_last<V>(members: Seq<(Seq<char>, V)>, i: int)
    requires
        0 <= i < members.len(),
        forall|j: int| i < j < members.len() ==> members[j].0 != members[i].0,
    ensures
        members_map(members).contains_key(members[i].0),
        members_map(members)[members[i].0] == members[i].1,
    decreases members.len(),
{
    if i < members.len() - 1 {
        lemma_members_map_last(members.drop_last(), i);
    }
}

/// A key that no member has is not in the map.
pub proof fn lemma_members_map_absent<V>(members: Seq<(Seq<char>, V)>, key: Seq<char>)
    requires
        forall|j: int| 0 <= j < members.len() ==> members[j].0 != key,
    ensures
        !members_map(members).contains_key(key),
{
    lemma_members_map_dom(members);
}

impl View for Json {
    type V = JsonValue;

    open spec fn view(&self) -> JsonValue
        decreases self, 0int,
    {
        match self {
            Json::Null => JsonValue::Null,
            Json::Bool(b) => JsonValue::Bool(*b),
            Json::Number(n) => JsonValue::Number(*n),
            Json::String(s) => JsonValue::String(s@),
            Json::Array(items) => JsonValue::Array(items_view(items@)),
            Json::Object(members) => JsonValue::Object(members_map(members_view(members@))),
        }
    }
}

impl JsonValue {
    /// The member `key` of an object; `None` for a value that is no object or
    /// has no such member.
    pub open spec fn field(self, key: Seq<char>) -> Option<JsonValue> {
        match self {
            JsonValue::Object(members) => if members.contains_key(key) {
                Some(members[key])
            } else {
                None
            },
            _ => None,
        }
    }

    /// The text held under `key`; `None` unless the member is there and is a
    /// string.
    pub open spec fn text_at(self, key: Seq<char>) -> Option<Seq<char>> {
        match self.field(key) {
            Some(JsonValue::String(text)) => Some(text),
            _ => None,
        }
    }

    /// The member `key` is there and is a boolean.
    pub open spec fn has_bool_at(self, key: Seq<char>) -> bool {
        self.field(key) matches Some(JsonValue::Bool(_))
    }
}

impl Json {
    /// The member `key` of an object.
    pub fn get(&self, key: &str) -> (found: Option<&Json>)
        ensures
            match found {
                Some(value) => self@.field(key@) == Some(value@),
                None => self@.field(key@) is None,
            },
    {
        match self {
            Json::Object(members) => {
                let ghost all = members_view(members@);
                let mut i: usize = members.len();
                while i > 0
                    invariant
                        i <= members@.len(),
                        *self == Json::Object(*members),
                        all == members_view(members@),
                        forall|j: int| i <= j < members@.len() ==> all[j].0 != key@,
                    decreases i,
                {
                    i -= 1;
                    if same_text(members[i].0.as_str(), key) {
                        proof {
                            lemma_members_map_last(all, i as int);
                        }
                        return Some(&members[i].1);
                    }
                }
                proof {
                    lemma_members_map_absent(all, key@);
                }
                None
            },
            _ => None,
        }
    }

    /// The text held under `key`, if the member is there and is a string.
    pub fn text_at(&self, key: &str) -> (found: Option<&String>)
        ensures
            match found {
                Some(text) => self@.text_at(key@) == Some(text@),
                None => self@.text_at(key@) is None,
            },
    {
        match self.get(key) {
            Some(Json::String(text)) => Some(text),
            _ => None,
        }
    }

    /// Says whether the member `key` is there and is a boolean.
    pub fn has_bool_at(&self, key: &str) -> (yes: bool)
        ensures
            yes == self@.has_bool_at(key@),
    {
        match self.get(key) {
            Some(Json::Bool(_)) => true,
            _ => false,
        }
    }

    /// A deep copy of the value.
    pub fn duplicate(&self) -> (copy: Json)
        ensures
            copy@ == self@,
        decreases self,
    {
        match self {
            Json::Null => Json::Null,
            Json::Bool(b) => Json::Bool(*b),
            Json::Number(n) => Json::Number(n.clone()),
            Json::String(s) => Json::String(s.clone()),
            Json::Array(items) => {
                let mut out: Vec<Json> = Vec::new();
                let mut i: usize = 0;
                while i < items.len()
                    invariant
                        self == Json::Array(*items),
                        i <= items@.len(),
                        out@.len() == i,
                        forall|j: int| 0 <= j < i ==> out@[j]@ == items@[j]@,
                    decreases items@.len() - i,
                {
                    proof {
                        vstd::std_specs::vec::axiom_vec_index_decreases(*items, i as int);
                        assert(self->Array_0 == *items);
                    }
                    let item = items[i].duplicate();
                    out.push(item);
                    i += 1;
                }
                let copy = Json::Array(out);
                proof {
                    assert(items_view(out@) =~= items_view(items@));
                }
                copy
            },
            Json::Object(members) => {
                let mut out: Vec<(String, Json)> = Vec::new();
                let mut i: usize = 0;
                while i < members.len()
                    invariant
                        self == Json::Object(*members),
                        i <= members@.len(),
                        out@.len() == i,
                        forall|j: int|
                            0 <= j < i ==> out@[j].0@ == members@[j].0@ && out@[j].1@
                                == members@[j].1@,
                    decreases members@.len() - i,
                {
                    proof {
                        vstd::std_specs::vec::axiom_vec_index_decreases(*members, i as int);
                        assert(self->Object_0 == *members);
                    }
                    let value = members[i].1.duplicate();
                    out.push((members[i].0.clone(), value));
                    i += 1;
                }
                let copy = Json::Object(out);
                proof {
                    assert(members_view(out@) =~= members_view(members@));
                }
                copy
            },
        }
    }
}

impl Clone for Json {
    fn clone(&self) -> (copy: Json)
        ensures
            copy@ == self@,
    {
        self.duplicate()
    }
}

} // verus!
