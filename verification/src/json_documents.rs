//! Documents: values that are read from texts and written to them.
use crate::json;
use crate::json::{Json, JsonModel, Member};
use crate::json_text;
use crate::json_text::{
    closed, compact, copy_number, opened, pretty, read_value, read_value_of_bytes, Opened,
};
use crate::text_order;
use serde_json::Value;
use vstd::prelude::*;
use vstd::string::*;

verus! {

/// Takes what a value holds.
fn held(value: Value) -> (json: Json)
    ensures
        json@ == json_text::value_held(value),
        json::sound(json@),
    decreases json_text::value_held(value),
{
    let ghost whole = json_text::value_held(value);
    match opened(value) {
        Opened::Null => Json::Null,
        Opened::Bool(flag) => Json::Bool(flag),
        Opened::Whole(number) => Json::Whole(number),
        Opened::Negative(number) => Json::Negative(number),
        Opened::Real(number) => Json::Real(number),
        Opened::Text(text) => Json::Text(text),
        Opened::List(items) => {
            let ghost models = whole->List_0;
            let ghost given = items@;
            let mut rest: Vec<Value> = items;
            let mut backwards: Vec<Json> = Vec::new();
            while rest.len() > 0
                invariant
                    whole == json_text::value_held(value),
                    whole is List && models == whole->List_0,
                    models.len() == given.len(),
                    rest@ == given.take(rest@.len() as int),
                    rest.len() + backwards.len() == given.len(),
                    forall|i: int|
                        0 <= i < given.len() ==> models[i] == json_text::value_held(
                            #[trigger] given[i],
                        ),
                    forall|k: int|
                        0 <= k < backwards.len() ==> (#[trigger] backwards@[k])@
                            == models[given.len() - 1 - k] && json::sound(backwards@[k]@),
                decreases rest.len(),
            {
                let ghost before = rest@;
                match rest.pop() {
                    Some(item) => {
                        assert(item == given[before.len() - 1]);
                        assert(models[before.len() - 1] == json_text::value_held(item));
                        assert(decreases_to!(whole => whole->List_0[before.len() - 1]));
                        assert(rest@ =~= given.take(before.len() - 1));
                        backwards.push(held(item));
                    },
                    None => {},
                }
            }
            let mut list: Vec<Json> = Vec::new();
            let ghost all = backwards@;
            while backwards.len() > 0
                invariant
                    backwards@ == all.take(backwards@.len() as int),
                    backwards.len() + list.len() == all.len(),
                    all.len() == models.len(),
                    forall|k: int|
                        0 <= k < all.len() ==> (#[trigger] all[k])@ == models[models.len() - 1 - k]
                            && json::sound(all[k]@),
                    forall|i: int|
                        0 <= i < list.len() ==> (#[trigger] list@[i])@ == models[i] && json::sound(
                            list@[i]@,
                        ),
                decreases backwards.len(),
            {
                let ghost before = backwards@;
                match backwards.pop() {
                    Some(item) => {
                        assert(item == all[before.len() - 1]);
                        assert(backwards@ =~= all.take(before.len() - 1));
                        list.push(item);
                    },
                    None => {},
                }
            }
            let json = Json::List(list);
            proof {
                json::lemma_parts(json);
                assert(json::values(list@) =~= models);
                assert forall|i: int| 0 <= i < models.len() implies json::sound(
                    #[trigger] models[i],
                ) by {
                    assert(list@[i]@ == models[i]);
                }
            }
            json
        },
        Opened::Object(parts) => {
            let ghost models = whole->Object_0;
            let ghost given = parts@;
            let mut rest: Vec<(String, Value)> = parts;
            let mut backwards: Vec<Member> = Vec::new();
            while rest.len() > 0
                invariant
                    whole == json_text::value_held(value),
                    whole is Object && models == whole->Object_0,
                    models.len() == given.len(),
                    rest@ == given.take(rest@.len() as int),
                    rest.len() + backwards.len() == given.len(),
                    forall|i: int|
                        0 <= i < given.len() ==> models[i] == (
                            (#[trigger] given[i]).0@,
                            json_text::value_held(given[i].1),
                        ),
                    forall|k: int|
                        0 <= k < backwards.len() ==> (
                            (#[trigger] backwards@[k]).key@,
                            backwards@[k].value@,
                        ) == models[given.len() - 1 - k] && json::sound(backwards@[k].value@),
                decreases rest.len(),
            {
                let ghost before = rest@;
                match rest.pop() {
                    Some((key, item)) => {
                        assert((key, item) == given[before.len() - 1]);
                        assert(models[before.len() - 1] == (key@, json_text::value_held(item)));
                        assert(decreases_to!(whole => whole->Object_0[before.len() - 1].1));
                        assert(rest@ =~= given.take(before.len() - 1));
                        backwards.push(Member { key, value: held(item) });
                    },
                    None => {},
                }
            }
            let mut members: Vec<Member> = Vec::new();
            let ghost all = backwards@;
            while backwards.len() > 0
                invariant
                    backwards@ == all.take(backwards@.len() as int),
                    backwards.len() + members.len() == all.len(),
                    all.len() == models.len(),
                    forall|k: int|
                        0 <= k < all.len() ==> ((#[trigger] all[k]).key@, all[k].value@)
                            == models[models.len() - 1 - k] && json::sound(all[k].value@),
                    forall|i: int|
                        0 <= i < members.len() ==> (
                            (#[trigger] members@[i]).key@,
                            members@[i].value@,
                        ) == models[i] && json::sound(members@[i].value@),
                decreases backwards.len(),
            {
                let ghost before = backwards@;
                match backwards.pop() {
                    Some(member) => {
                        assert(member == all[before.len() - 1]);
                        assert(backwards@ =~= all.take(before.len() - 1));
                        members.push(member);
                    },
                    None => {},
                }
            }
            let json = Json::Object(members);
            proof {
                json::lemma_parts(json);
                assert(json::members_of(members@) =~= models);
                assert forall|i: int| 0 <= i < models.len() implies json::sound(
                    (#[trigger] models[i]).1,
                ) by {
                    assert(members@[i].value@ == models[i].1);
                }
            }
            json
        },
    }
}

/// What a text or bytes write.
pub open spec fn read_model(read: Result<Json, String>) -> Result<JsonModel, Seq<char>> {
    match read {
        Ok(json) => Ok(json@),
        Err(detail) => Err(detail@),
    }
}

/// Reads the value that a text writes.
pub fn parse(text: &str) -> (read: Result<Json, String>)
    ensures
        read_model(read) == json_text::json_written(text@),
        read matches Ok(json) ==> json::sound(json@),
{
    match read_value(text) {
        Ok(value) => Ok(held(value)),
        Err(detail) => Err(detail),
    }
}

/// Reads the value that bytes write.
pub fn parse_bytes(bytes: &Vec<u8>) -> (read: Result<Json, String>)
    ensures
        read_model(read) == json_text::json_in_bytes(bytes@),
        vstd::utf8::valid_utf8(bytes@) ==> read_model(read) == json_text::json_written(
            vstd::utf8::decode_utf8(bytes@),
        ),
        read matches Ok(json) ==> json::sound(json@),
{
    match read_value_of_bytes(bytes) {
        Ok(value) => Ok(held(value)),
        Err(detail) => Err(detail),
    }
}

/// The text that a member of an object is, where a text writes an object with
/// such a member.
pub open spec fn member_written(text: Seq<char>, key: Seq<char>) -> Option<Seq<char>> {
    match json_text::json_written(text) {
        Ok(j) => json::text_of(json::member(j, key)),
        Err(_) => None,
    }
}

/// Reads the text that a member of an object is.
pub fn read_member(text: &str, key: &str) -> (found: Option<String>)
    ensures
        found is Some == member_written(text@, key@) is Some,
        found is Some ==> found->0@ == member_written(text@, key@)->0,
{
    let document: Json = match parse(text) {
        Ok(document) => document,
        Err(_) => {
            return None;
        },
    };
    match document.get(key) {
        Some(value) => match value.as_str() {
            Some(found) => Some(found.to_owned()),
            None => None,
        },
        None => None,
    }
}

/// The whole number that a member of an object is, where it is one, and what is
/// said of a text that is no JSON.
pub open spec fn number_written(text: Seq<char>, key: Seq<char>) -> Result<
    Option<u64>,
    Seq<char>,
> {
    match json_text::json_written(text) {
        Ok(j) => Ok(json::whole_of(json::member(j, key))),
        Err(detail) => Err(detail),
    }
}

/// Reads the whole number that a member of an object is.
pub fn read_number(text: &str, key: &str) -> (found: Result<Option<u64>, String>)
    ensures
        match found {
            Ok(number) => number_written(text@, key@) == Ok::<Option<u64>, Seq<char>>(number),
            Err(detail) => number_written(text@, key@) == Err::<Option<u64>, Seq<char>>(detail@),
        },
{
    let document: Json = match parse(text) {
        Ok(document) => document,
        Err(detail) => {
            return Err(detail);
        },
    };
    match document.get(key) {
        Some(value) => Ok(value.as_u64()),
        None => Ok(None),
    }
}

/// A value with the members of its objects in the order in which they are kept.
pub open spec fn kept_form(j: JsonModel) -> JsonModel
    decreases j, 0int,
{
    match j {
        JsonModel::List(items) => JsonModel::List(
            Seq::new(
                items.len(),
                |i: int|
                    if 0 <= i < items.len() {
                        kept_form(items[i])
                    } else {
                        JsonModel::Null
                    },
            ),
        ),
        JsonModel::Object(members) => JsonModel::Object(text_order::by_key(kept_parts(members))),
        _ => j,
    }
}

/// Members with each value in the form in which it is kept.
pub open spec fn kept_parts(members: Seq<(Seq<char>, JsonModel)>) -> Seq<(Seq<char>, JsonModel)>
    decreases members, 1int,
{
    Seq::new(
        members.len(),
        |i: int|
            if 0 <= i < members.len() {
                (members[i].0, kept_form(members[i].1))
            } else {
                (Seq::empty(), JsonModel::Null)
            },
    )
}

/// Whether members are the same as some others, in an order of their own.
pub open spec fn is_order_of(
    kept: Seq<(Seq<char>, JsonModel)>,
    members: Seq<(Seq<char>, JsonModel)>,
) -> bool {
    &&& kept.len() == members.len()
    &&& json::no_key_twice(kept)
    &&& forall|i: int| 0 <= i < kept.len() ==> members.contains(#[trigger] kept[i])
    &&& forall|i: int| 0 <= i < members.len() ==> kept.contains(#[trigger] members[i])
}

/// Members are put in the order of their keys without any being lost.
proof fn lemma_ordered(members: Seq<(Seq<char>, JsonModel)>)
    requires
        json::no_key_twice(members),
    ensures
        is_order_of(text_order::by_key(members), members),
{
    let kept = text_order::by_key(members);
    text_order::law_order_keeps_keys(members);
    let before = text_order::keys(members);
    let after = text_order::keys(kept);
    assert(before.no_duplicates()) by {
        assert forall|i: int, j: int|
            0 <= i < before.len() && 0 <= j < before.len() && i != j implies before[i]
            != before[j] by {
            assert(before[i] == members[i].0 && before[j] == members[j].0);
        }
    }
    text_order::lemma_same_texts(before, after);
    assert forall|i: int, j: int| 0 <= i < j < kept.len() implies (#[trigger] kept[i]).0 != (
    #[trigger] kept[j]).0 by {
        assert(after[i] == kept[i].0 && after[j] == kept[j].0);
    }
    assert forall|i: int| 0 <= i < kept.len() implies members.contains(#[trigger] kept[i]) by {
        text_order::law_order_keeps_everything(members, kept[i]);
        assert(kept.contains(kept[i]));
    }
    assert forall|i: int| 0 <= i < members.len() implies kept.contains(#[trigger] members[i]) by {
        text_order::law_order_keeps_everything(members, members[i]);
        assert(members.contains(members[i]));
    }
}

/// An object with its members in an order of their own is the same.
proof fn lemma_order_is_same(a: JsonModel, parts: Seq<(Seq<char>, JsonModel)>, b: JsonModel)
    requires
        a is Object && b is Object,
        is_order_of(a->Object_0, parts),
        json::no_key_twice(b->Object_0),
        parts.len() == b->Object_0.len(),
        forall|i: int|
            0 <= i < parts.len() ==> (#[trigger] parts[i]).0 == b->Object_0[i].0
                && json::same_value(parts[i].1, b->Object_0[i].1),
    ensures
        json::same_value(a, b),
{
    let x = a->Object_0;
    let y = b->Object_0;
    assert forall|i: int| 0 <= i < x.len() implies json::key_index(y, (#[trigger] x[i]).0, 0)
        < y.len() && json::same_value(x[i].1, y[json::key_index(y, x[i].0, 0)].1) by {
        assert(parts.contains(x[i]));
        let j = choose|j: int| 0 <= j < parts.len() && parts[j] == x[i];
        assert(parts[j].0 == y[j].0);
        json::lemma_key_is_at(y, x[i].0, 0, j);
    }
    assert forall|j: int| 0 <= j < y.len() implies json::key_index(x, (#[trigger] y[j]).0, 0)
        < x.len() by {
        assert(x.contains(parts[j]));
        let i = choose|i: int| 0 <= i < x.len() && x[i] == parts[j];
        json::lemma_key_is_at(x, y[j].0, 0, i);
    }
}

/// Makes the value that is written.
fn made(json: &Json) -> (value: Value)
    requires
        json::sound(json@),
    ensures
        json_text::value_held(value) == kept_form(json@),
        json::same_value(json_text::value_held(value), json@),
    decreases json,
{
    proof {
        json::lemma_parts(*json);
    }
    match json {
        Json::Null => closed(Opened::Null),
        Json::Bool(flag) => closed(Opened::Bool(*flag)),
        Json::Whole(number) => closed(Opened::Whole(*number)),
        Json::Negative(number) => closed(Opened::Negative(*number)),
        Json::Real(number) => closed(Opened::Real(copy_number(number))),
        Json::Product(_) => closed(Opened::Null),
        Json::Text(text) => closed(Opened::Text(text.clone())),
        Json::List(items) => {
            let ghost models = json::values(items@);
            let mut values: Vec<Value> = Vec::new();
            let mut i: usize = 0;
            while i < items.len()
                invariant
                    i <= items.len(),
                    values.len() == i,
                    *json matches Json::List(all) && all == items,
                    json::sound(json@),
                    json@ is List && models == json@->List_0,
                    models == json::values(items@),
                    forall|k: int|
                        0 <= k < i ==> json_text::value_held(#[trigger] values@[k]) == kept_form(
                            models[k],
                        ) && json::same_value(json_text::value_held(values@[k]), models[k]),
                decreases items.len() - i,
            {
                assert(decreases_to!(*json => items@[i as int]));
                assert(models[i as int] == items@[i as int]@);
                values.push(made(&items[i]));
                i = i + 1;
            }
            let parts = Opened::List(values);
            proof {
                assert(kept_form(json@)->List_0 =~= parts.model()->List_0);
            }
            closed(parts)
        },
        Json::Object(members) => {
            let ghost models = json::members_of(members@);
            let mut values: Vec<(String, Value)> = Vec::new();
            let mut i: usize = 0;
            while i < members.len()
                invariant
                    i <= members.len(),
                    values.len() == i,
                    *json matches Json::Object(all) && all == members,
                    json::sound(json@),
                    json@ is Object && models == json@->Object_0,
                    models == json::members_of(members@),
                    forall|k: int|
                        0 <= k < i ==> (#[trigger] values@[k]).0@ == models[k].0
                            && json_text::value_held(values@[k].1) == kept_form(models[k].1)
                            && json::same_value(json_text::value_held(values@[k].1), models[k].1),
                decreases members.len() - i,
            {
                assert(decreases_to!(*json => members@[i as int].value));
                assert(models[i as int] == (
                    members@[i as int].key@,
                    members@[i as int].value@,
                ));
                values.push((members[i].key.clone(), made(&members[i].value)));
                i = i + 1;
            }
            let parts = Opened::Object(values);
            let ghost kept = parts.model()->Object_0;
            proof {
                assert forall|k: int| 0 <= k < kept.len() implies (#[trigger] kept[k]).0
                    == models[k].0 && kept[k].1 == kept_form(models[k].1) && json::same_value(
                    kept[k].1,
                    models[k].1,
                ) by {
                    assert(kept[k] == (values@[k].0@, json_text::value_held(values@[k].1)));
                }
                assert(kept =~= kept_parts(models));
                reveal_with_fuel(kept_form, 2);
                assert(json::no_key_twice(kept));
            }
            let value: Value = closed(parts);
            proof {
                lemma_ordered(kept);
                lemma_order_is_same(json_text::value_held(value), kept, json@);
            }
            value
        },
    }
}

/// Values that are the same lie within the same depth.
proof fn lemma_same_depth(a: JsonModel, b: JsonModel, depth: nat)
    requires
        json::same_value(a, b),
        json::fits_within(b, depth),
    ensures
        json::fits_within(a, depth),
    decreases a,
{
    match (a, b) {
        (JsonModel::List(x), JsonModel::List(y)) => {
            assert forall|i: int| 0 <= i < x.len() implies json::fits_within(
                #[trigger] x[i],
                (depth - 1) as nat,
            ) by {
                assert(json::fits_within(y[i], (depth - 1) as nat));
                lemma_same_depth(x[i], y[i], (depth - 1) as nat);
            }
        },
        (JsonModel::Object(x), JsonModel::Object(y)) => {
            assert forall|i: int| 0 <= i < x.len() implies json::fits_within(
                (#[trigger] x[i]).1,
                (depth - 1) as nat,
            ) by {
                let j = json::key_index(y, x[i].0, 0);
                json::lemma_key_index(y, x[i].0, 0);
                assert(json::fits_within(y[j].1, (depth - 1) as nat));
                lemma_same_depth(x[i].1, y[j].1, (depth - 1) as nat);
            }
        },
        _ => {},
    }
}

/// How many lists and objects may lie within one another for a document to be
/// read.
pub const MAX_NESTING: u64 = 127;

/// Whether a document that is written is read as it was: there are no reals in
/// it, and it is not nested too deeply.
pub open spec fn survives(j: JsonModel) -> bool {
    json::fits_within(j, MAX_NESTING as nat)
}

/// Whether a text writes a value.
pub open spec fn writes(text: Seq<char>, j: JsonModel) -> bool {
    json_text::json_written(text) matches Ok(read) && json::same_value(read, j)
}

/// Writes a value over many lines.
pub fn write_pretty(json: &Json) -> (text: String)
    requires
        json::sound(json@),
    ensures
        text@ == json_text::pretty_text(kept_form(json@)),
        survives(json@) ==> writes(text@, json@),
{
    let value: Value = made(json);
    proof {
        if survives(json@) {
            lemma_same_depth(json_text::value_held(value), json@, MAX_NESTING as nat);
        }
    }
    pretty(&value)
}

/// Writes a value on one line.
pub fn write_compact(json: &Json) -> (text: String)
    requires
        json::sound(json@),
    ensures
        text@ == json_text::compact_text(kept_form(json@)),
{
    compact(&made(json))
}

/// Values that are the same have the same members.
pub proof fn lemma_same_member(a: JsonModel, b: JsonModel, key: Seq<char>)
    requires
        json::same_value(a, b),
    ensures
        json::member(a, key) is Some == json::member(b, key) is Some,
        json::member(a, key) is Some ==> json::same_value(
            json::member(a, key)->0,
            json::member(b, key)->0,
        ),
        json::text_of(json::member(a, key)) == json::text_of(json::member(b, key)),
{
    if a is Object && b is Object {
        let x = a->Object_0;
        let y = b->Object_0;
        json::lemma_key_index(x, key, 0);
        json::lemma_key_index(y, key, 0);
        let i = json::key_index(x, key, 0);
        let j = json::key_index(y, key, 0);
        if i < x.len() {
            assert(x[i].0 == key);
            assert(json::same_value(x[i].1, y[j].1));
        }
        if j < y.len() {
            assert(y[j].0 == key);
        }
    }
}

/// Values that are the same have the same at every path.
pub proof fn lemma_same_at_path(a: JsonModel, b: JsonModel, path: Seq<Seq<char>>, k: int)
    requires
        json::same_value(a, b),
    ensures
        json::same_value(json::at_path(a, path, k), json::at_path(b, path, k)),
    decreases path.len() - k,
{
    if k < path.len() {
        lemma_same_member(a, b, path[k]);
        match json::member(a, path[k]) {
            Some(inner) => {
                lemma_same_at_path(inner, json::member(b, path[k])->0, path, k + 1);
            },
            None => {},
        }
    }
}

} // verus!
