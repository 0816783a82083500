//! Values in the form that extensions and ledgers exchange.
use crate::json_text;
use crate::json_text::copy_number;
use crate::layout_wire::{copy_factors, Weight};
use crate::text;
use crate::text::same_text;
use serde_json::Number;
use vstd::prelude::*;
use vstd::string::*;

verus! {

/// A value.
#[derive(Debug)]
pub enum Json {
    Null,
    Bool(bool),
    /// A whole number that is not negative.
    Whole(u64),
    /// A whole number below zero.
    Negative(i64),
    /// Any other number.
    Real(Number),
    /// The number that is the product of some factors.
    Product(Vec<Weight>),
    Text(String),
    List(Vec<Json>),
    Object(Vec<Member>),
}

/// A member of an object.
#[derive(Debug)]
pub struct Member {
    pub key: String,
    pub value: Json,
}

/// A value.
pub enum JsonModel {
    Null,
    Bool(bool),
    Whole(u64),
    Negative(i64),
    /// Any other number, as it is written.
    Real(Seq<char>),
    Product(Seq<Weight>),
    Text(Seq<char>),
    List(Seq<JsonModel>),
    Object(Seq<(Seq<char>, JsonModel)>),
}

impl Json {
    pub open spec fn model(self) -> JsonModel
        decreases self,
    {
        match self {
            Json::Null => JsonModel::Null,
            Json::Bool(b) => JsonModel::Bool(b),
            Json::Whole(n) => JsonModel::Whole(n),
            Json::Negative(n) => JsonModel::Negative(n),
            Json::Real(n) => JsonModel::Real(json_text::number_text(n)),
            Json::Product(factors) => JsonModel::Product(factors@),
            Json::Text(t) => JsonModel::Text(t@),
            Json::List(items) => JsonModel::List(
                Seq::new(
                    items@.len(),
                    |i: int|
                        if 0 <= i < items@.len() {
                            items@[i].model()
                        } else {
                            JsonModel::Null
                        },
                ),
            ),
            Json::Object(members) => JsonModel::Object(
                Seq::new(
                    members@.len(),
                    |i: int|
                        if 0 <= i < members@.len() {
                            (members@[i].key@, members@[i].value.model())
                        } else {
                            (Seq::empty(), JsonModel::Null)
                        },
                ),
            ),
        }
    }
}

impl View for Json {
    type V = JsonModel;

    open spec fn view(&self) -> JsonModel {
        self.model()
    }
}

/// What a list of values holds.
pub open spec fn values(items: Seq<Json>) -> Seq<JsonModel> {
    items.map_values(|j: Json| j.model())
}

/// What a list of members holds.
pub open spec fn members_of(members: Seq<Member>) -> Seq<(Seq<char>, JsonModel)> {
    members.map_values(|m: Member| (m.key@, m.value.model()))
}

/// What a list and an object hold.
pub proof fn lemma_parts(json: Json)
    ensures
        json matches Json::List(items) ==> json.model() == JsonModel::List(values(items@)),
        json matches Json::Object(members) ==> json.model() == JsonModel::Object(
            members_of(members@),
        ),
{
    if let Json::List(items) = json {
        assert(json.model()->List_0 =~= values(items@));
    }
    if let Json::Object(members) = json {
        assert(json.model()->Object_0 =~= members_of(members@));
    }
}

/// The place of the first member of a key, from `k` on.
pub open spec fn key_index(members: Seq<(Seq<char>, JsonModel)>, key: Seq<char>, k: int) -> int
    decreases members.len() - k,
{
    if k >= members.len() {
        members.len() as int
    } else if members[k].0 == key {
        k
    } else {
        key_index(members, key, k + 1)
    }
}

/// What the place of a key is.
pub proof fn lemma_key_index(members: Seq<(Seq<char>, JsonModel)>, key: Seq<char>, k: int)
    requires
        0 <= k <= members.len(),
    ensures
        k <= key_index(members, key, k) <= members.len(),
        key_index(members, key, k) < members.len() ==> members[key_index(members, key, k)].0 == key,
        forall|i: int| k <= i < key_index(members, key, k) ==> (#[trigger] members[i]).0 != key,
    decreases members.len() - k,
{
    if k < members.len() && members[k].0 != key {
        lemma_key_index(members, key, k + 1);
    }
}

/// A key that is first at a place is found there.
pub proof fn lemma_key_is_at(members: Seq<(Seq<char>, JsonModel)>, key: Seq<char>, k: int, at: int)
    requires
        0 <= k <= at < members.len(),
        members[at].0 == key,
        forall|i: int| k <= i < at ==> (#[trigger] members[i]).0 != key,
    ensures
        key_index(members, key, k) == at,
    decreases at - k,
{
    if k < at {
        lemma_key_is_at(members, key, k + 1, at);
    }
}

/// The member of an object that has a key.
pub open spec fn member(j: JsonModel, key: Seq<char>) -> Option<JsonModel> {
    match j {
        JsonModel::Object(members) => {
            let k = key_index(members, key, 0);
            if k < members.len() {
                Some(members[k].1)
            } else {
                None
            }
        },
        _ => None,
    }
}

/// An item of a list.
pub open spec fn item(j: JsonModel, i: int) -> Option<JsonModel> {
    match j {
        JsonModel::List(items) => if 0 <= i < items.len() {
            Some(items[i])
        } else {
            None
        },
        _ => None,
    }
}

/// The text that a value is.
pub open spec fn text_of(j: Option<JsonModel>) -> Option<Seq<char>> {
    match j {
        Some(JsonModel::Text(t)) => Some(t),
        _ => None,
    }
}

/// The whole number that a value is.
pub open spec fn whole_of(j: Option<JsonModel>) -> Option<u64> {
    match j {
        Some(JsonModel::Whole(n)) => Some(n),
        _ => None,
    }
}

/// Whether no key is the key of two members.
pub open spec fn no_key_twice(members: Seq<(Seq<char>, JsonModel)>) -> bool {
    forall|i: int, j: int|
        0 <= i < j < members.len() ==> (#[trigger] members[i]).0 != (#[trigger] members[j]).0
}

/// Whether a number that is written like this is not a whole one.
pub open spec fn is_real(text: Seq<char>) -> bool {
    text.contains('.') || text.contains('e')
}

/// Whether a value can be written: its numbers are in the form that they belong
/// to, and no object has a key twice.
pub open spec fn sound(j: JsonModel) -> bool
    decreases j,
{
    match j {
        JsonModel::Negative(number) => number < 0,
        JsonModel::Real(text) => is_real(text),
        JsonModel::Product(_) => false,
        JsonModel::List(items) => forall|i: int|
            0 <= i < items.len() ==> sound(#[trigger] items[i]),
        JsonModel::Object(members) => no_key_twice(members) && forall|i: int|
            0 <= i < members.len() ==> sound((#[trigger] members[i]).1),
        _ => true,
    }
}

/// Whether there are no reals in a value, and at most `depth` lists and objects
/// in it lie within one another.
pub open spec fn fits_within(j: JsonModel, depth: nat) -> bool
    decreases j,
{
    match j {
        JsonModel::Real(_) | JsonModel::Product(_) => false,
        JsonModel::List(items) => depth > 0 && forall|i: int|
            0 <= i < items.len() ==> fits_within(#[trigger] items[i], (depth - 1) as nat),
        JsonModel::Object(members) => depth > 0 && forall|i: int|
            0 <= i < members.len() ==> fits_within((#[trigger] members[i]).1, (depth - 1) as nat),
        _ => true,
    }
}

/// Whether two values are the same but for the order of the members of objects.
pub open spec fn same_value(a: JsonModel, b: JsonModel) -> bool
    decreases a,
{
    match (a, b) {
        (JsonModel::List(x), JsonModel::List(y)) => x.len() == y.len() && forall|i: int|
            0 <= i < x.len() ==> same_value(#[trigger] x[i], y[i]),
        (JsonModel::Object(x), JsonModel::Object(y)) => {
            &&& forall|i: int|
                0 <= i < x.len() ==> key_index(y, (#[trigger] x[i]).0, 0) < y.len() && same_value(
                    x[i].1,
                    y[key_index(y, x[i].0, 0)].1,
                )
            &&& forall|j: int|
                0 <= j < y.len() ==> key_index(x, (#[trigger] y[j]).0, 0) < x.len()
        },
        _ => a == b,
    }
}

/// What is found.
pub open spec fn found_value(found: Option<&Json>) -> Option<JsonModel> {
    match found {
        Some(j) => Some(j@),
        None => None,
    }
}

impl Json {
    /// The member of an object that has a key.
    pub fn get(&self, key: &str) -> (found: Option<&Json>)
        ensures
            found_value(found) == member(self@, key@),
    {
        proof {
            lemma_parts(*self);
        }
        match self {
            Json::Object(members) => {
                let ghost all = members_of(members@);
                let k: usize = find_key(members, key);
                if k < members.len() {
                    assert(all[k as int].1 == members@[k as int].value@);
                    Some(&members[k].value)
                } else {
                    None
                }
            },
            _ => None,
        }
    }

    /// An item of a list.
    pub fn item(&self, index: usize) -> (found: Option<&Json>)
        ensures
            found_value(found) == item(self@, index as int),
    {
        proof {
            lemma_parts(*self);
        }
        match self {
            Json::List(items) => {
                if index < items.len() {
                    assert(values(items@)[index as int] == items@[index as int]@);
                    Some(&items[index])
                } else {
                    None
                }
            },
            _ => None,
        }
    }

    /// The text that a value is.
    pub fn as_str(&self) -> (text: Option<&str>)
        ensures
            text is Some == text_of(Some(self@)) is Some,
            text is Some ==> text->0@ == text_of(Some(self@))->0,
    {
        match self {
            Json::Text(text) => Some(text.as_str()),
            _ => None,
        }
    }

    /// The whole number that a value is.
    pub fn as_u64(&self) -> (number: Option<u64>)
        ensures
            number == whole_of(Some(self@)),
    {
        match self {
            Json::Whole(number) => Some(*number),
            _ => None,
        }
    }
}

impl Clone for Json {
    fn clone(&self) -> (copy: Self)
        ensures
            copy@ == self@,
        decreases self,
    {
        proof {
            lemma_parts(*self);
        }
        match self {
            Json::Null => Json::Null,
            Json::Bool(b) => Json::Bool(*b),
            Json::Whole(n) => Json::Whole(*n),
            Json::Negative(n) => Json::Negative(*n),
            Json::Real(n) => Json::Real(copy_number(n)),
            Json::Product(factors) => Json::Product(copy_factors(factors)),
            Json::Text(t) => Json::Text(t.clone()),
            Json::List(items) => {
                let mut copies: Vec<Json> = Vec::new();
                let mut i: usize = 0;
                while i < items.len()
                    invariant
                        i <= items.len(),
                        copies.len() == i,
                        *self matches Json::List(all) && all == items,
                        forall|j: int| 0 <= j < i ==> (#[trigger] copies@[j])@ == items@[j]@,
                    decreases items.len() - i,
                {
                    assert(decreases_to!(*self => items@[i as int]));
                    let copy: Json = items[i].clone();
                    copies.push(copy);
                    i = i + 1;
                }
                let copy = Json::List(copies);
                proof {
                    lemma_parts(copy);
                    assert(values(copies@) =~= values(items@));
                }
                copy
            },
            Json::Object(members) => {
                let mut copies: Vec<Member> = Vec::new();
                let mut i: usize = 0;
                while i < members.len()
                    invariant
                        i <= members.len(),
                        copies.len() == i,
                        *self matches Json::Object(all) && all == members,
                        forall|j: int|
                            0 <= j < i ==> (#[trigger] copies@[j]).key@ == members@[j].key@
                                && copies@[j].value@ == members@[j].value@,
                    decreases members.len() - i,
                {
                    assert(decreases_to!(*self => members@[i as int].value));
                    let value: Json = members[i].value.clone();
                    copies.push(Member { key: members[i].key.clone(), value });
                    i = i + 1;
                }
                let copy = Json::Object(copies);
                proof {
                    lemma_parts(copy);
                    assert(members_of(copies@) =~= members_of(members@));
                }
                copy
            },
        }
    }
}

/// Finds the first member of a key.
pub fn find_key(members: &Vec<Member>, key: &str) -> (index: usize)
    ensures
        index == key_index(members_of(members@), key@, 0),
        index <= members.len(),
{
    let ghost all = members_of(members@);
    let mut i: usize = 0;
    while i < members.len()
        invariant
            i <= members.len(),
            all == members_of(members@),
            key_index(all, key@, 0) == key_index(all, key@, i as int),
        decreases members.len() - i,
    {
        assert(all[i as int].0 == members@[i as int].key@);
        if same_text(members[i].key.as_str(), key) {
            return i;
        }
        i = i + 1;
    }
    i
}

/// A member of an object.
pub fn entry(key: &str, value: Json) -> (m: Member)
    ensures
        m.key@ == key@,
        m.value@ == value@,
{
    Member { key: key.to_owned(), value }
}

/// An object of one member.
pub fn object1(a: Member) -> (json: Json)
    ensures
        json@ == JsonModel::Object(seq![(a.key@, a.value@)]),
{
    let mut members: Vec<Member> = Vec::new();
    members.push(a);
    let json = Json::Object(members);
    proof {
        lemma_parts(json);
        assert(members_of(members@) =~= seq![(a.key@, a.value@)]);
    }
    json
}

/// An object of two members.
pub fn object2(a: Member, b: Member) -> (json: Json)
    ensures
        json@ == JsonModel::Object(seq![(a.key@, a.value@), (b.key@, b.value@)]),
{
    let mut members: Vec<Member> = Vec::new();
    members.push(a);
    members.push(b);
    let json = Json::Object(members);
    proof {
        lemma_parts(json);
        assert(members_of(members@) =~= seq![(a.key@, a.value@), (b.key@, b.value@)]);
    }
    json
}

/// An object of three members.
pub fn object3(a: Member, b: Member, c: Member) -> (json: Json)
    ensures
        json@ == JsonModel::Object(
            seq![(a.key@, a.value@), (b.key@, b.value@), (c.key@, c.value@)],
        ),
{
    let mut members: Vec<Member> = Vec::new();
    members.push(a);
    members.push(b);
    members.push(c);
    let json = Json::Object(members);
    proof {
        lemma_parts(json);
        assert(members_of(members@) =~= seq![
            (a.key@, a.value@),
            (b.key@, b.value@),
            (c.key@, c.value@),
        ]);
    }
    json
}

/// The members of an object, none where it is something else.
pub open spec fn members_in(j: JsonModel) -> Seq<(Seq<char>, JsonModel)> {
    match j {
        JsonModel::Object(members) => members,
        _ => Seq::empty(),
    }
}

/// Members with one more, in place of the one that has its key.
pub open spec fn with_member(
    members: Seq<(Seq<char>, JsonModel)>,
    key: Seq<char>,
    value: JsonModel,
) -> Seq<(Seq<char>, JsonModel)> {
    let k = key_index(members, key, 0);
    if k < members.len() {
        members.update(k, (key, value))
    } else {
        members.push((key, value))
    }
}

/// What stands at a path, the keys from `k` on; nothing where an object has no
/// such key.
pub open spec fn at_path(j: JsonModel, path: Seq<Seq<char>>, k: int) -> JsonModel
    decreases path.len() - k,
{
    if k >= path.len() {
        j
    } else {
        match member(j, path[k]) {
            Some(inner) => at_path(inner, path, k + 1),
            None => JsonModel::Null,
        }
    }
}

/// A value with another one put at a path, the keys from `k` on; what is in the
/// way gives way to an object.
pub open spec fn put_at_path(j: JsonModel, path: Seq<Seq<char>>, k: int, value: JsonModel) -> JsonModel
    decreases path.len() - k,
{
    if k >= path.len() {
        value
    } else {
        let inner = match member(j, path[k]) {
            Some(inner) => inner,
            None => JsonModel::Null,
        };
        JsonModel::Object(
            with_member(members_in(j), path[k], put_at_path(inner, path, k + 1, value)),
        )
    }
}

/// Reads what stands at a path.
pub fn read_path(json: &Json, path: &Vec<String>) -> (found: Json)
    ensures
        found@ == at_path(json@, text::texts(path@), 0),
{
    let ghost keys = text::texts(path@);
    let mut cursor: &Json = json;
    let mut i: usize = 0;
    while i < path.len()
        invariant
            i <= path.len(),
            keys == text::texts(path@),
            at_path(json@, keys, 0) == at_path(cursor@, keys, i as int),
        decreases path.len() - i,
    {
        assert(keys[i as int] == path@[i as int]@);
        match cursor.get(path[i].as_str()) {
            Some(inner) => {
                cursor = inner;
            },
            None => {
                return Json::Null;
            },
        }
        i = i + 1;
    }
    cursor.clone()
}

/// Puts a value at a path.
pub fn write_path(json: Json, path: &Vec<String>, from: usize, value: Json) -> (written: Json)
    requires
        from <= path.len(),
    ensures
        written@ == put_at_path(json@, text::texts(path@), from as int, value@),
    decreases path.len() - from,
{
    let ghost keys = text::texts(path@);
    if from >= path.len() {
        return value;
    }
    let ghost whole = json@;
    proof {
        lemma_parts(json);
        assert(keys[from as int] == path@[from as int]@);
    }
    let mut members: Vec<Member> = match json {
        Json::Object(members) => members,
        _ => Vec::new(),
    };
    let ghost all = members_of(members@);
    proof {
        assert(all =~= members_in(whole));
        lemma_key_index(all, keys[from as int], 0);
    }
    let key: String = path[from].clone();
    let k: usize = find_key(&members, key.as_str());
    if k < members.len() {
        assert(all[k as int].1 == members@[k as int].value@);
        let inner: Json = members[k].value.clone();
        let changed: Json = write_path(inner, path, from + 1, value);
        members.set(k, Member { key, value: changed });
        let written = Json::Object(members);
        proof {
            lemma_parts(written);
            assert(members_of(members@) =~= with_member(all, keys[from as int], changed@));
        }
        written
    } else {
        let changed: Json = write_path(Json::Null, path, from + 1, value);
        members.push(Member { key, value: changed });
        let written = Json::Object(members);
        proof {
            assert(member(whole, keys[from as int]) is None);
            lemma_parts(written);
            assert(members_of(members@) =~= with_member(all, keys[from as int], changed@));
        }
        written
    }
}

/// What has been put at a path is read there.
pub proof fn law_what_is_written_is_read(
    j: JsonModel,
    path: Seq<Seq<char>>,
    k: int,
    value: JsonModel,
)
    requires
        0 <= k,
    ensures
        at_path(put_at_path(j, path, k, value), path, k) == value,
    decreases path.len() - k,
{
    if k < path.len() {
        let inner = match member(j, path[k]) {
            Some(inner) => inner,
            None => JsonModel::Null,
        };
        law_what_is_written_is_read(inner, path, k + 1, value);
        lemma_with_member(members_in(j), path[k], put_at_path(inner, path, k + 1, value), path[k]);
    }
}

/// A member that is put is found, and every other one is as it was.
pub proof fn lemma_with_member(
    members: Seq<(Seq<char>, JsonModel)>,
    key: Seq<char>,
    value: JsonModel,
    other: Seq<char>,
)
    ensures
        member(JsonModel::Object(with_member(members, key, value)), other) == if other == key {
            Some(value)
        } else {
            member(JsonModel::Object(members), other)
        },
{
    let after = with_member(members, key, value);
    let k = key_index(members, key, 0);
    let o = key_index(members, other, 0);
    lemma_key_index(members, key, 0);
    lemma_key_index(members, other, 0);
    lemma_key_index(after, other, 0);
    if other == key {
        lemma_key_is_at(after, key, 0, k);
    } else if o < members.len() {
        lemma_key_is_at(after, other, 0, o);
    } else {
        let a = key_index(after, other, 0);
        if a < after.len() {
            if a < members.len() {
                assert(members[a].0 != other);
            }
        }
    }
}

/// What stands elsewhere is as it was: two paths that part somewhere do not
/// get in each other's way.
pub proof fn law_writing_leaves_the_rest(
    j: JsonModel,
    path: Seq<Seq<char>>,
    other: Seq<Seq<char>>,
    k: int,
    fork: int,
    value: JsonModel,
)
    requires
        0 <= k <= fork < path.len(),
        fork < other.len(),
        path[fork] != other[fork],
        forall|i: int| k <= i < fork ==> path[i] == other[i],
    ensures
        at_path(put_at_path(j, path, k, value), other, k) == at_path(j, other, k),
    decreases fork - k,
{
    let inner = match member(j, path[k]) {
        Some(inner) => inner,
        None => JsonModel::Null,
    };
    let put = put_at_path(inner, path, k + 1, value);
    lemma_with_member(members_in(j), path[k], put, other[k]);
    if k < fork {
        law_writing_leaves_the_rest(inner, path, other, k + 1, fork, value);
        lemma_nothing_below_nothing(other, k + 1);
    }
}

/// Nothing stands below nothing.
proof fn lemma_nothing_below_nothing(path: Seq<Seq<char>>, k: int)
    ensures
        at_path(JsonModel::Null, path, k) == JsonModel::Null,
{
}

/// A value that can be written can be written with another one put in it.
pub proof fn lemma_put_is_sound(j: JsonModel, path: Seq<Seq<char>>, k: int, value: JsonModel)
    requires
        sound(j),
        sound(value),
    ensures
        sound(put_at_path(j, path, k, value)),
    decreases path.len() - k,
{
    if k < path.len() {
        let members = members_in(j);
        let key = path[k];
        let at = key_index(members, key, 0);
        lemma_key_index(members, key, 0);
        let inner = match member(j, key) {
            Some(inner) => inner,
            None => JsonModel::Null,
        };
        if at < members.len() {
            assert(sound(members[at].1));
        }
        lemma_put_is_sound(inner, path, k + 1, value);
        let put = put_at_path(inner, path, k + 1, value);
        let after = with_member(members, key, put);
        assert forall|i: int| 0 <= i < after.len() implies sound((#[trigger] after[i]).1) by {
            if i < members.len() && i != at {
                assert(sound(members[i].1));
            }
        }
        assert(no_key_twice(after));
        let whole = JsonModel::Object(after);
        assert(whole->Object_0 == after);
        assert(sound(whole));
    }
}

} // verus!
