//! The ledger of approvals: which extensions may run on the server.
//!
//! An approval binds to the exact policy that it was given for. Nothing is
//! approved unless the ledger says so: a ledger that cannot be read, or a
//! record that is not complete, approves nothing.
use crate::json;
use crate::json::{entry, object3, Json, JsonModel};
use crate::json_documents;
use crate::json_documents::{parse, write_pretty};
use crate::json_text;
use crate::paths;
use crate::paths::{join, parent};
use crate::text::same_text;
use vstd::prelude::*;
use vstd::string::*;

verus! {

/// What was decided for one exact policy.
#[derive(Clone, Copy, Debug, PartialEq, Eq, Structural)]
pub enum ServerConsentState {
    Approved,
    Denied,
}

/// A decision.
#[derive(Debug, PartialEq)]
pub struct ServerConsentRecord {
    pub id: String,
    pub policy_fingerprint: String,
    pub state: ServerConsentState,
}

impl Clone for ServerConsentRecord {
    fn clone(&self) -> (copy: Self)
        ensures
            copy@ == self@,
    {
        ServerConsentRecord {
            id: self.id.clone(),
            policy_fingerprint: self.policy_fingerprint.clone(),
            state: self.state,
        }
    }
}

/// A decision.
pub struct RecordModel {
    pub id: Seq<char>,
    pub policy_fingerprint: Seq<char>,
    pub state: ServerConsentState,
}

impl View for ServerConsentRecord {
    type V = RecordModel;

    open spec fn view(&self) -> RecordModel {
        RecordModel {
            id: self.id@,
            policy_fingerprint: self.policy_fingerprint@,
            state: self.state,
        }
    }
}

/// How a state is written.
pub open spec fn state_text(state: ServerConsentState) -> Seq<char> {
    match state {
        ServerConsentState::Approved => "approved"@,
        ServerConsentState::Denied => "denied"@,
    }
}

/// How a decision is written.
pub open spec fn record_json(r: RecordModel) -> JsonModel {
    JsonModel::Object(
        seq![
            ("id"@, JsonModel::Text(r.id)),
            ("policy_fingerprint"@, JsonModel::Text(r.policy_fingerprint)),
            ("state"@, JsonModel::Text(state_text(r.state))),
        ],
    )
}

/// The decision that is written, where all of it is there.
pub open spec fn record_in(j: JsonModel) -> Option<RecordModel> {
    let id = json::text_of(json::member(j, "id"@));
    let fingerprint = json::text_of(json::member(j, "policy_fingerprint"@));
    let state = json::text_of(json::member(j, "state"@));
    if id is None || fingerprint is None || state is None {
        None
    } else if state->0 == "approved"@ {
        Some(
            RecordModel {
                id: id->0,
                policy_fingerprint: fingerprint->0,
                state: ServerConsentState::Approved,
            },
        )
    } else if state->0 == "denied"@ {
        Some(
            RecordModel {
                id: id->0,
                policy_fingerprint: fingerprint->0,
                state: ServerConsentState::Denied,
            },
        )
    } else {
        None
    }
}

/// The text of a member of an object.
pub fn member_text<'a>(value: &'a Json, key: &str) -> (found: Option<&'a str>)
    ensures
        found is Some == json::text_of(json::member(value@, key@)) is Some,
        found is Some ==> found->0@ == json::text_of(json::member(value@, key@))->0,
{
    match value.get(key) {
        Some(inner) => inner.as_str(),
        None => None,
    }
}

/// What a record holds.
pub open spec fn record_model(record: Option<ServerConsentRecord>) -> Option<RecordModel> {
    match record {
        Some(r) => Some(r@),
        None => None,
    }
}

impl ServerConsentRecord {
    /// Writes a decision.
    pub fn to_json(&self) -> (value: Json)
        ensures
            value@ == record_json(self@),
    {
        let state: &str = match self.state {
            ServerConsentState::Approved => "approved",
            ServerConsentState::Denied => "denied",
        };
        object3(
            entry("id", Json::Text(self.id.clone())),
            entry("policy_fingerprint", Json::Text(self.policy_fingerprint.clone())),
            entry("state", Json::Text(state.to_owned())),
        )
    }

    /// Reads a decision; one that is not complete is none.
    pub fn from_json(value: &Json) -> (record: Option<ServerConsentRecord>)
        ensures
            record_model(record) == record_in(value@),
    {
        let id: String = match member_text(value, "id") {
            Some(text) => text.to_owned(),
            None => {
                return None;
            },
        };
        let policy_fingerprint: String = match member_text(value, "policy_fingerprint") {
            Some(text) => text.to_owned(),
            None => {
                return None;
            },
        };
        let written: &str = match member_text(value, "state") {
            Some(text) => text,
            None => {
                return None;
            },
        };
        let state: ServerConsentState = if same_text(written, "approved") {
            ServerConsentState::Approved
        } else if same_text(written, "denied") {
            ServerConsentState::Denied
        } else {
            return None;
        };
        Some(ServerConsentRecord { id, policy_fingerprint, state })
    }
}

/// Where the ledger is: beside the directory of the extensions of the user.
pub fn server_consent_path(user_extensions_dir: &str) -> (path: String)
    ensures
        path@ == paths::path_join(
            paths::parent_of(user_extensions_dir@),
            "extension-consent.json"@,
        ),
{
    join(parent(user_extensions_dir).as_str(), "extension-consent.json")
}

/// The decisions in a ledger.
pub open spec fn records_in(list: Seq<JsonModel>) -> Seq<RecordModel>
    decreases list.len(),
{
    if list.len() == 0 {
        Seq::empty()
    } else {
        let before = records_in(list.drop_last());
        match record_in(list.last()) {
            Some(r) => before.push(r),
            None => before,
        }
    }
}

/// The entries of a ledger; what cannot be read or is no list has none.
pub open spec fn ledger_entries(document: Option<JsonModel>) -> Seq<JsonModel> {
    match document {
        Some(JsonModel::List(list)) => list,
        _ => Seq::empty(),
    }
}

/// What a document holds.
pub open spec fn document_model(document: Option<Json>) -> Option<JsonModel> {
    match document {
        Some(j) => Some(j@),
        None => None,
    }
}

/// What a list of records holds.
pub open spec fn record_models(records: Seq<ServerConsentRecord>) -> Seq<RecordModel> {
    records.map_values(|r: ServerConsentRecord| r@)
}

/// Whether all values can be written.
pub open spec fn all_sound(entries: Seq<JsonModel>) -> bool {
    forall|i: int| 0 <= i < entries.len() ==> json::sound(#[trigger] entries[i])
}

/// The entries of a ledger as they are, given what was read of it.
pub fn entries_of(document: Option<Json>) -> (entries: Vec<Json>)
    ensures
        json::values(entries@) == ledger_entries(document_model(document)),
{
    match document {
        Some(Json::List(list)) => {
            proof {
                json::lemma_parts(Json::List(list));
            }
            list
        },
        Some(other) => {
            let none: Vec<Json> = Vec::new();
            assert(json::values(none@) =~= Seq::<JsonModel>::empty());
            none
        },
        None => {
            let none: Vec<Json> = Vec::new();
            assert(json::values(none@) =~= Seq::<JsonModel>::empty());
            none
        },
    }
}

/// The text of a ledger, where there is one.
pub open spec fn ledger_text(ledger: Option<&str>) -> Option<Seq<char>> {
    match ledger {
        Some(text) => Some(text@),
        None => None,
    }
}

/// The document that the text of a ledger writes, where it is one.
pub open spec fn document_in(ledger: Option<Seq<char>>) -> Option<JsonModel> {
    match ledger {
        Some(text) => match json_text::json_written(text) {
            Ok(j) => Some(j),
            Err(_) => None,
        },
        None => None,
    }
}

/// Reads the entries of a ledger as they are.
pub fn load_server_consent_raw(ledger: Option<&str>) -> (entries: Vec<Json>)
    ensures
        json::values(entries@) == ledger_entries(document_in(ledger_text(ledger))),
        all_sound(json::values(entries@)),
{
    let document: Option<Json> = match ledger {
        Some(text) => match parse(text) {
            Ok(document) => Some(document),
            Err(_) => None,
        },
        None => None,
    };
    entries_of(document)
}

/// Reads the decisions of a ledger; entries that are no decision are left out.
pub fn load_server_consent(ledger: Option<&str>) -> (records: Vec<ServerConsentRecord>)
    ensures
        record_models(records@) == records_in(ledger_entries(document_in(ledger_text(ledger)))),
{
    decisions_of(&load_server_consent_raw(ledger))
}

/// The decisions among the entries of a ledger; those that are no decision are
/// left out.
pub fn decisions_of(entries: &Vec<Json>) -> (records: Vec<ServerConsentRecord>)
    ensures
        record_models(records@) == records_in(json::values(entries@)),
{
    let ghost all = json::values(entries@);
    let mut records: Vec<ServerConsentRecord> = Vec::new();
    let mut i: usize = 0;
    assert(record_models(records@) =~= records_in(all.take(0)));
    while i < entries.len()
        invariant
            i <= entries.len(),
            all == json::values(entries@),
            record_models(records@) == records_in(all.take(i as int)),
        decreases entries.len() - i,
    {
        proof {
            assert(all.take(i + 1).drop_last() =~= all.take(i as int));
            assert(all.take(i + 1).last() == entries@[i as int]@);
        }
        match ServerConsentRecord::from_json(&entries[i]) {
            Some(record) => {
                let ghost before = records@;
                records.push(record);
                assert(record_models(records@) =~= record_models(before).push(record@));
            },
            None => {},
        }
        i = i + 1;
    }
    assert(all.take(i as int) =~= all);
    records
}

/// The decision for an extension: the last one.
pub open spec fn decision(records: Seq<RecordModel>, id: Seq<char>) -> Option<RecordModel>
    decreases records.len(),
{
    if records.len() == 0 {
        None
    } else if records.last().id == id {
        Some(records.last())
    } else {
        decision(records.drop_last(), id)
    }
}

/// Whether a policy of an extension is approved.
pub open spec fn approves(
    records: Seq<RecordModel>,
    id: Seq<char>,
    fingerprint: Seq<char>,
) -> bool {
    match decision(records, id) {
        Some(r) => r.state == ServerConsentState::Approved && r.policy_fingerprint == fingerprint,
        None => false,
    }
}

fn find_decision<'a>(records: &'a Vec<ServerConsentRecord>, id: &str) -> (found: Option<
    &'a ServerConsentRecord,
>)
    ensures
        match found {
            Some(r) => decision(record_models(records@), id@) == Some(r@),
            None => decision(record_models(records@), id@) is None,
        },
{
    let ghost all = record_models(records@);
    let mut i: usize = records.len();
    assert(all.take(i as int) =~= all);
    while i > 0
        invariant
            i <= records.len(),
            all == record_models(records@),
            decision(all, id@) == decision(all.take(i as int), id@),
        decreases i,
    {
        i = i - 1;
        proof {
            assert(all.take(i + 1).drop_last() =~= all.take(i as int));
            assert(all.take(i + 1).last() == records@[i as int]@);
        }
        if same_text(records[i].id.as_str(), id) {
            return Some(&records[i]);
        }
    }
    None
}

/// Decides whether a policy of an extension is approved.
pub fn ledger_approves(records: &Vec<ServerConsentRecord>, id: &str, fingerprint: &str) -> (yes:
    bool)
    ensures
        yes == approves(record_models(records@), id@, fingerprint@),
{
    match find_decision(records, id) {
        Some(record) => {
            record.state == ServerConsentState::Approved && same_text(
                record.policy_fingerprint.as_str(),
                fingerprint,
            )
        },
        None => false,
    }
}

/// Why an extension that was found is not started.
#[derive(Clone, Copy, Debug, PartialEq, Eq, Structural)]
pub enum StartupRefusal {
    Denied,
    PolicyChanged,
    NotApproved,
}

impl StartupRefusal {
    /// Says why.
    pub fn as_str(self) -> (reason: &'static str)
        ensures
            reason@ == match self {
                StartupRefusal::Denied => "denied by the server approval ledger"@,
                StartupRefusal::PolicyChanged =>
                    "policy fingerprint changed since approval; re-approval required"@,
                StartupRefusal::NotApproved => "not approved by the server approval ledger"@,
            },
    {
        match self {
            StartupRefusal::Denied => "denied by the server approval ledger",
            StartupRefusal::PolicyChanged =>
                "policy fingerprint changed since approval; re-approval required",
            StartupRefusal::NotApproved => "not approved by the server approval ledger",
        }
    }
}

/// Decides whether an extension that was found is started, and if not, why.
pub fn startup_refusal(records: &Vec<ServerConsentRecord>, id: &str, fingerprint: &str) -> (refusal:
    Option<StartupRefusal>)
    ensures
        ({
            let r = record_models(records@);
            refusal == if approves(r, id@, fingerprint@) {
                None::<StartupRefusal>
            } else {
                match decision(r, id@) {
                    Some(d) => if d.state == ServerConsentState::Denied {
                        Some(StartupRefusal::Denied)
                    } else {
                        Some(StartupRefusal::PolicyChanged)
                    },
                    None => Some(StartupRefusal::NotApproved),
                }
            }
        }),
{
    if ledger_approves(records, id, fingerprint) {
        return None;
    }
    match find_decision(records, id) {
        Some(record) => {
            if record.state == ServerConsentState::Denied {
                Some(StartupRefusal::Denied)
            } else {
                Some(StartupRefusal::PolicyChanged)
            }
        },
        None => Some(StartupRefusal::NotApproved),
    }
}

/// The entries of a ledger that are not about an extension.
pub open spec fn entries_without(list: Seq<JsonModel>, id: Seq<char>) -> Seq<JsonModel>
    decreases list.len(),
{
    if list.len() == 0 {
        Seq::empty()
    } else {
        let before = entries_without(list.drop_last(), id);
        if json::text_of(json::member(list.last(), "id"@)) == Some(id) {
            before
        } else {
            before.push(list.last())
        }
    }
}

/// A ledger in which a decision was recorded: all else that it holds is kept as
/// it is.
pub open spec fn with_decision(list: Seq<JsonModel>, r: RecordModel) -> Seq<JsonModel> {
    entries_without(list, r.id).push(record_json(r))
}

/// The decision on a policy of an extension.
pub open spec fn new_decision(
    id: Seq<char>,
    fingerprint: Seq<char>,
    approved: bool,
) -> RecordModel {
    RecordModel {
        id,
        policy_fingerprint: fingerprint,
        state: if approved {
            ServerConsentState::Approved
        } else {
            ServerConsentState::Denied
        },
    }
}

/// Puts a decision on a policy of an extension among the entries of a ledger.
pub fn with_consent(entries: Vec<Json>, id: &str, fingerprint: &str, approved: bool) -> (changed:
    Vec<Json>)
    ensures
        json::values(changed@) == with_decision(
            json::values(entries@),
            new_decision(id@, fingerprint@, approved),
        ),
{
    let ghost all = json::values(entries@);
    let mut changed: Vec<Json> = Vec::new();
    let mut i: usize = 0;
    assert(json::values(changed@) =~= entries_without(all.take(0), id@));
    while i < entries.len()
        invariant
            i <= entries.len(),
            all == json::values(entries@),
            json::values(changed@) == entries_without(all.take(i as int), id@),
        decreases entries.len() - i,
    {
        proof {
            assert(all.take(i + 1).drop_last() =~= all.take(i as int));
            assert(all.take(i + 1).last() == entries@[i as int]@);
        }
        let about: bool = match member_text(&entries[i], "id") {
            Some(text) => same_text(text, id),
            None => false,
        };
        if !about {
            let copy: Json = entries[i].clone();
            let ghost before = changed@;
            changed.push(copy);
            assert(json::values(changed@) =~= json::values(before).push(copy@));
        }
        i = i + 1;
    }
    assert(all.take(i as int) =~= all);
    let record = ServerConsentRecord {
        id: id.to_owned(),
        policy_fingerprint: fingerprint.to_owned(),
        state: if approved {
            ServerConsentState::Approved
        } else {
            ServerConsentState::Denied
        },
    };
    let written: Json = record.to_json();
    let ghost before = changed@;
    changed.push(written);
    assert(json::values(changed@) =~= json::values(before).push(written@));
    changed
}

/// A decision is read as it was written.
pub proof fn law_records_are_read_back(r: RecordModel)
    ensures
        record_in(record_json(r)) == Some(r),
{
    reveal_strlit("id");
    reveal_strlit("policy_fingerprint");
    reveal_strlit("state");
    reveal_strlit("approved");
    reveal_strlit("denied");
    let members = json::members_in(record_json(r));
    assert("id"@.len() != "policy_fingerprint"@.len());
    assert("id"@.len() != "state"@.len());
    assert("state"@.len() != "policy_fingerprint"@.len());
    assert("approved"@.len() != "denied"@.len());
    json::lemma_key_is_at(members, "id"@, 0, 0);
    json::lemma_key_is_at(members, "policy_fingerprint"@, 0, 1);
    json::lemma_key_is_at(members, "state"@, 0, 2);
}

proof fn lemma_others_decided_alike(list: Seq<JsonModel>, id: Seq<char>, other: Seq<char>)
    ensures
        decision(records_in(entries_without(list, id)), other) == if other == id {
            None
        } else {
            decision(records_in(list), other)
        },
    decreases list.len(),
{
    if list.len() > 0 {
        let init = list.drop_last();
        let last = list.last();
        lemma_others_decided_alike(init, id, other);
        let kept = entries_without(init, id);
        if json::text_of(json::member(last, "id"@)) == Some(id) {
            match record_in(last) {
                Some(r) => {
                    let before = records_in(init);
                    assert(before.push(r).drop_last() =~= before);
                },
                None => {},
            }
        } else {
            assert(kept.push(last).drop_last() =~= kept);
            match record_in(last) {
                Some(r) => {
                    let before = records_in(init);
                    assert(before.push(r).drop_last() =~= before);
                    let shorter = records_in(kept);
                    assert(shorter.push(r).drop_last() =~= shorter);
                },
                None => {},
            }
        }
    }
}

/// What was decided holds: a policy is approved exactly where it was approved
/// last, and nothing else that was decided changes.
pub proof fn law_decisions_hold(
    list: Seq<JsonModel>,
    r: RecordModel,
    other: Seq<char>,
    fingerprint: Seq<char>,
)
    ensures
        approves(records_in(with_decision(list, r)), other, fingerprint) == if other == r.id {
            r.state == ServerConsentState::Approved && fingerprint == r.policy_fingerprint
        } else {
            approves(records_in(list), other, fingerprint)
        },
{
    let kept = entries_without(list, r.id);
    law_records_are_read_back(r);
    lemma_others_decided_alike(list, r.id, other);
    assert(kept.push(record_json(r)).drop_last() =~= kept);
    let before = records_in(kept);
    assert(before.push(r).drop_last() =~= before);
}

/// Nothing is approved where there is no ledger that can be read.
pub proof fn law_no_ledger_approves_nothing(
    document: Option<JsonModel>,
    id: Seq<char>,
    fingerprint: Seq<char>,
)
    requires
        !(document matches Some(JsonModel::List(_))),
    ensures
        !approves(records_in(ledger_entries(document)), id, fingerprint),
{
}

proof fn lemma_entries_stay_sound(list: Seq<JsonModel>, r: RecordModel)
    requires
        all_sound(list),
    ensures
        all_sound(with_decision(list, r)),
        all_sound(entries_without(list, r.id)),
    decreases list.len(),
{
    if list.len() > 0 {
        assert(all_sound(list.drop_last())) by {
            assert forall|i: int| 0 <= i < list.drop_last().len() implies json::sound(
                #[trigger] list.drop_last()[i],
            ) by {
                assert(json::sound(list[i]));
            }
        }
        lemma_entries_stay_sound(list.drop_last(), r);
        assert(json::sound(list[list.len() - 1]));
    }
    reveal_strlit("id");
    reveal_strlit("policy_fingerprint");
    reveal_strlit("state");
    let record = record_json(r);
    let members = record->Object_0;
    assert("id"@.len() != "policy_fingerprint"@.len());
    assert("id"@.len() != "state"@.len());
    assert("state"@.len() != "policy_fingerprint"@.len());
    assert(json::no_key_twice(members));
    assert forall|i: int| 0 <= i < members.len() implies json::sound((#[trigger] members[i]).1) by {
        assert(members[i].1 is Text);
    }
    assert(json::sound(record));
}

/// Ledgers that are the same hold the same decisions.
proof fn lemma_same_decisions(a: Seq<JsonModel>, b: Seq<JsonModel>)
    requires
        a.len() == b.len(),
        forall|i: int| 0 <= i < a.len() ==> json::same_value(#[trigger] a[i], b[i]),
    ensures
        records_in(a) == records_in(b),
    decreases a.len(),
{
    if a.len() > 0 {
        assert forall|i: int| 0 <= i < a.drop_last().len() implies json::same_value(
            #[trigger] a.drop_last()[i],
            b.drop_last()[i],
        ) by {
            assert(json::same_value(a[i], b[i]));
        }
        lemma_same_decisions(a.drop_last(), b.drop_last());
        let last = a.len() - 1;
        json_documents::lemma_same_member(a[last], b[last], "id"@);
        json_documents::lemma_same_member(a[last], b[last], "policy_fingerprint"@);
        json_documents::lemma_same_member(a[last], b[last], "state"@);
    }
}

/// The decisions that the text of a ledger holds.
pub open spec fn decisions_in(ledger: Option<Seq<char>>) -> Seq<RecordModel> {
    records_in(ledger_entries(document_in(ledger)))
}

/// The entries of a ledger in which a decision was recorded.
pub open spec fn decided_entries(ledger: Option<Seq<char>>, r: RecordModel) -> JsonModel {
    JsonModel::List(with_decision(ledger_entries(document_in(ledger)), r))
}

/// Records a decision on a policy of an extension: writes the ledger anew, with
/// all else that it holds. The policy is approved by what was written exactly
/// where it was approved now, and nothing else that was decided changes.
pub fn set_consent(ledger: Option<&str>, id: &str, fingerprint: &str, approved: bool) -> (written:
    String)
    ensures
        written@ == json_text::pretty_text(
            json_documents::kept_form(
                decided_entries(ledger_text(ledger), new_decision(id@, fingerprint@, approved)),
            ),
        ),
        json_documents::survives(
            decided_entries(ledger_text(ledger), new_decision(id@, fingerprint@, approved)),
        ) ==> forall|other: Seq<char>, policy: Seq<char>| #[trigger]
            approves(decisions_in(Some(written@)), other, policy) == if other == id@ {
                approved && policy == fingerprint@
            } else {
                approves(decisions_in(ledger_text(ledger)), other, policy)
            },
{
    let ghost r = new_decision(id@, fingerprint@, approved);
    let entries: Vec<Json> = load_server_consent_raw(ledger);
    let ghost list = json::values(entries@);
    let changed: Vec<Json> = with_consent(entries, id, fingerprint, approved);
    let document = Json::List(changed);
    proof {
        json::lemma_parts(document);
        lemma_entries_stay_sound(list, r);
        assert(document@ == decided_entries(ledger_text(ledger), r));
    }
    let written: String = write_pretty(&document);
    proof {
        if json_documents::survives(document@) {
            let read = json_text::json_written(written@)->Ok_0;
            assert(read is List);
            lemma_same_decisions(read->List_0, document@->List_0);
            assert forall|other: Seq<char>, policy: Seq<char>| #[trigger]
                approves(decisions_in(Some(written@)), other, policy) == if other == id@ {
                    approved && policy == fingerprint@
                } else {
                    approves(decisions_in(ledger_text(ledger)), other, policy)
                } by {
                law_decisions_hold(list, r, other, policy);
            }
        }
    }
    written
}

/// Of several decisions on an extension the last one counts; where there is none
/// the extension is not approved.
pub proof fn law_last_decision_counts(records: Seq<RecordModel>, id: Seq<char>, k: int)
    requires
        0 <= k < records.len() ==> records[k].id == id && forall|j: int|
            k < j < records.len() ==> (#[trigger] records[j]).id != id,
        !(0 <= k < records.len()) ==> forall|j: int|
            0 <= j < records.len() ==> (#[trigger] records[j]).id != id,
    ensures
        0 <= k < records.len() ==> decision(records, id) == Some(records[k]),
        !(0 <= k < records.len()) ==> decision(records, id) is None,
        forall|fingerprint: Seq<char>| #[trigger]
            approves(records, id, fingerprint) <==> 0 <= k < records.len()
                && records[k].state is Approved && records[k].policy_fingerprint == fingerprint,
    decreases records.len(),
{
    if records.len() > 0 {
        let init = records.drop_last();
        let last = records.len() - 1;
        if records[last].id == id {
            assert(k == last);
        } else {
            assert(k != last);
            if 0 <= k < records.len() {
                assert forall|j: int| k < j < init.len() implies (#[trigger] init[j]).id != id by {
                    assert(init[j] == records[j]);
                }
            } else {
                assert forall|j: int| 0 <= j < init.len() implies (#[trigger] init[j]).id != id by {
                    assert(init[j] == records[j]);
                }
            }
            law_last_decision_counts(
                init,
                id,
                if 0 <= k < records.len() {
                    k
                } else {
                    -1
                },
            );
        }
    }
}

/// A decision says whether an extension is approved, and under which policy.
pub proof fn law_decisions_say_what_was_decided(
    id: Seq<char>,
    fingerprint: Seq<char>,
    approved: bool,
)
    ensures
        new_decision(id, fingerprint, approved).id == id,
        new_decision(id, fingerprint, approved).policy_fingerprint == fingerprint,
        new_decision(id, fingerprint, approved).state is Approved <==> approved,
        new_decision(id, fingerprint, approved).state is Denied <==> !approved,
{
}

} // verus!
