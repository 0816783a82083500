//! The settings that extensions read and write, by keys whose parts are
//! separated by dots.
use crate::json;
use crate::json::{read_path, write_path, Json, JsonModel};
use crate::json_documents;
use crate::json_documents::{parse, parse_bytes, write_compact, write_pretty};
use crate::json_text;
use crate::numbers;
use crate::numbers::decimal_text;
use crate::text;
use crate::text::{around, joined};
use crate::unicode::text_of_bytes;
use vstd::prelude::*;
use vstd::string::*;

verus! {

/// The parts of a key: what stands before, between and behind its dots.
pub open spec fn key_parts(key: Seq<char>) -> Seq<Seq<char>>
    decreases key.len(),
{
    if key.len() == 0 {
        seq![Seq::empty()]
    } else {
        let before = key_parts(key.drop_last());
        if key.last() == '.' {
            before.push(Seq::empty())
        } else {
            before.update(before.len() - 1, before.last().push(key.last()))
        }
    }
}

/// Splits a key into its parts.
pub fn split_key(key: &str) -> (parts: Vec<String>)
    ensures
        text::texts(parts@) == key_parts(key@),
{
    let length: usize = key.unicode_len();
    let mut parts: Vec<String> = Vec::new();
    let mut start: usize = 0;
    let mut i: usize = 0;
    proof {
        assert(key@.take(0) =~= Seq::<char>::empty());
        assert(text::texts(parts@).push(key@.subrange(0, 0)) =~= key_parts(key@.take(0)));
    }
    while i < length
        invariant
            start <= i <= length,
            length == key@.len(),
            text::texts(parts@).push(key@.subrange(start as int, i as int)) == key_parts(
                key@.take(i as int),
            ),
        decreases length - i,
    {
        let ghost done = text::texts(parts@);
        let ghost before = done.push(key@.subrange(start as int, i as int));
        proof {
            assert(key@.take(i + 1).drop_last() =~= key@.take(i as int));
            assert(key@.take(i + 1).last() == key@[i as int]);
        }
        if key.get_char(i) == '.' {
            let part: String = key.substring_char(start, i).to_owned();
            proof {
                text::lemma_texts_push(parts@, part);
            }
            parts.push(part);
            start = i + 1;
            proof {
                assert(key@.subrange(i + 1, i + 1) =~= Seq::<char>::empty());
                assert(text::texts(parts@) =~= before);
            }
        } else {
            proof {
                assert(key@.subrange(start as int, i + 1) =~= key@.subrange(
                    start as int,
                    i as int,
                ).push(key@[i as int]));
                assert(before.update(
                    before.len() - 1,
                    before.last().push(key@[i as int]),
                ) =~= done.push(key@.subrange(start as int, i + 1)));
            }
        }
        i = i + 1;
    }
    let last: String = key.substring_char(start, length).to_owned();
    proof {
        text::lemma_texts_push(parts@, last);
        assert(key@.take(length as int) =~= key@);
    }
    parts.push(last);
    parts
}

/// The settings that there are; an empty object where there is no file.
pub open spec fn settings_in(document: Option<JsonModel>) -> JsonModel {
    match document {
        Some(j) => j,
        None => JsonModel::Object(Seq::empty()),
    }
}

/// What a document holds.
pub open spec fn document_model(document: Option<Json>) -> Option<JsonModel> {
    match document {
        Some(j) => Some(j@),
        None => None,
    }
}

/// Finds a setting among the settings; one that is not there is nothing.
pub fn setting_in(document: &Option<Json>, key: &str) -> (value: Json)
    ensures
        value@ == match *document {
            Some(j) => json::at_path(j@, key_parts(key@), 0),
            None => JsonModel::Null,
        },
{
    match document {
        Some(settings) => {
            let parts: Vec<String> = split_key(key);
            read_path(settings, &parts)
        },
        None => Json::Null,
    }
}

/// Puts a setting among the settings.
pub fn with_setting(document: Option<Json>, key: &str, value: Json) -> (changed: Json)
    ensures
        changed@ == json::put_at_path(
            settings_in(document_model(document)),
            key_parts(key@),
            0,
            value@,
        ),
{
    let parts: Vec<String> = split_key(key);
    let settings: Json = match document {
        Some(settings) => settings,
        None => {
            let empty = Json::Object(Vec::new());
            proof {
                json::lemma_parts(empty);
                assert(json::members_of(empty->Object_0@) =~= Seq::empty());
            }
            empty
        },
    };
    write_path(settings, &parts, 0, value)
}

/// A setting that was written is read.
pub proof fn law_written_settings_are_read(
    document: Option<JsonModel>,
    key: Seq<char>,
    value: JsonModel,
)
    ensures
        json::at_path(
            json::put_at_path(settings_in(document), key_parts(key), 0, value),
            key_parts(key),
            0,
        ) == value,
{
    json::law_what_is_written_is_read(settings_in(document), key_parts(key), 0, value);
}

/// A setting whose key parts from the one that was written is as it was.
pub proof fn law_other_settings_are_kept(
    document: JsonModel,
    key: Seq<char>,
    other: Seq<char>,
    fork: int,
    value: JsonModel,
)
    requires
        0 <= fork < key_parts(key).len(),
        fork < key_parts(other).len(),
        key_parts(key)[fork] != key_parts(other)[fork],
        forall|i: int| 0 <= i < fork ==> key_parts(key)[i] == key_parts(other)[i],
    ensures
        json::at_path(
            json::put_at_path(document, key_parts(key), 0, value),
            key_parts(other),
            0,
        ) == json::at_path(document, key_parts(other), 0),
{
    json::law_writing_leaves_the_rest(
        document,
        key_parts(key),
        key_parts(other),
        0,
        fork,
        value,
    );
}

/// Why a setting is not read or written.
#[derive(Debug)]
pub enum SettingsError {
    /// The value takes too many bytes.
    ValueTooLarge,
    /// The settings take too many bytes.
    DocumentTooLarge,
    /// The settings are no text.
    NotText,
    /// The settings cannot be read; with what is said of them.
    Unreadable(String),
}

/// Why a setting is not read or written.
pub enum SettingsErrorModel {
    ValueTooLarge,
    DocumentTooLarge,
    NotText,
    Unreadable(Seq<char>),
}

impl View for SettingsError {
    type V = SettingsErrorModel;

    open spec fn view(&self) -> SettingsErrorModel {
        match self {
            SettingsError::ValueTooLarge => SettingsErrorModel::ValueTooLarge,
            SettingsError::DocumentTooLarge => SettingsErrorModel::DocumentTooLarge,
            SettingsError::NotText => SettingsErrorModel::NotText,
            SettingsError::Unreadable(detail) => SettingsErrorModel::Unreadable(detail@),
        }
    }
}

/// The bytes of the file of the settings, where there is one.
pub open spec fn file_bytes(file: Option<&Vec<u8>>) -> Option<Seq<u8>> {
    match file {
        Some(bytes) => Some(bytes@),
        None => None,
    }
}

/// The setting that a file of settings holds; without a file, or where it is not
/// there, it is nothing.
pub open spec fn setting_read(file: Option<Seq<u8>>, key: Seq<char>, limit: u64) -> Result<
    JsonModel,
    SettingsErrorModel,
> {
    match file {
        None => Ok(JsonModel::Null),
        Some(bytes) => if bytes.len() > limit {
            Err(SettingsErrorModel::DocumentTooLarge)
        } else if !vstd::utf8::valid_utf8(bytes) {
            Err(SettingsErrorModel::NotText)
        } else {
            match json_text::json_written(vstd::utf8::decode_utf8(bytes)) {
                Ok(j) => Ok(json::at_path(j, key_parts(key), 0)),
                Err(detail) => Err(SettingsErrorModel::Unreadable(detail)),
            }
        },
    }
}

/// Reads a setting from the file of the settings.
pub fn read_server_setting(file: Option<&Vec<u8>>, key: &str, limit: u64) -> (result: Result<
    Json,
    SettingsError,
>)
    ensures
        match result {
            Ok(value) => setting_read(file_bytes(file), key@, limit) == Ok::<
                JsonModel,
                SettingsErrorModel,
            >(value@),
            Err(error) => setting_read(file_bytes(file), key@, limit) == Err::<
                JsonModel,
                SettingsErrorModel,
            >(error@),
        },
{
    let bytes: &Vec<u8> = match file {
        Some(bytes) => bytes,
        None => {
            return Ok(Json::Null);
        },
    };
    if bytes.len() as u64 > limit {
        return Err(SettingsError::DocumentTooLarge);
    }
    let text: String = match text_of_bytes(bytes.as_slice()) {
        Some(text) => text,
        None => {
            return Err(SettingsError::NotText);
        },
    };
    match parse(text.as_str()) {
        Ok(settings) => Ok(setting_in(&Some(settings), key)),
        Err(detail) => Err(SettingsError::Unreadable(detail)),
    }
}

/// How many bytes a value takes as it is written on one line.
pub open spec fn value_size(value: JsonModel) -> nat {
    vstd::utf8::encode_utf8(json_text::compact_text(json_documents::kept_form(value))).len()
}

/// How settings are written.
pub open spec fn settings_text(settings: JsonModel) -> Seq<char> {
    json_text::pretty_text(json_documents::kept_form(settings))
}

/// What a file of settings holds; without a file it is an empty object.
pub open spec fn settings_before(file: Option<Seq<u8>>) -> Result<JsonModel, Seq<char>> {
    match file {
        Some(bytes) => json_text::json_in_bytes(bytes),
        None => Ok(JsonModel::Object(Seq::empty())),
    }
}

/// What a file of settings holds once a setting is written.
pub open spec fn settings_after(
    file: Option<Seq<u8>>,
    key: Seq<char>,
    value: JsonModel,
) -> JsonModel {
    json::put_at_path(settings_before(file)->Ok_0, key_parts(key), 0, value)
}

/// The text of the file of the settings once a setting is written.
pub open spec fn setting_written(
    file: Option<Seq<u8>>,
    key: Seq<char>,
    value: JsonModel,
    value_limit: u64,
    limit: u64,
) -> Result<Seq<char>, SettingsErrorModel> {
    if value_size(value) > value_limit {
        Err(SettingsErrorModel::ValueTooLarge)
    } else if file is Some && file->0.len() > limit {
        Err(SettingsErrorModel::DocumentTooLarge)
    } else {
        match settings_before(file) {
            Err(detail) => Err(SettingsErrorModel::Unreadable(detail)),
            Ok(_) => {
                let text = settings_text(settings_after(file, key, value));
                if vstd::utf8::encode_utf8(text).len() > limit {
                    Err(SettingsErrorModel::DocumentTooLarge)
                } else {
                    Ok(text)
                }
            },
        }
    }
}

/// Writes a setting: gives what the file of the settings is to hold.
pub fn write_server_setting(
    file: Option<&Vec<u8>>,
    key: &str,
    value: &Json,
    value_limit: u64,
    limit: u64,
) -> (result: Result<String, SettingsError>)
    requires
        json::sound(value@),
    ensures
        match result {
            Ok(text) => setting_written(file_bytes(file), key@, value@, value_limit, limit) == Ok::<
                Seq<char>,
                SettingsErrorModel,
            >(text@),
            Err(error) => setting_written(file_bytes(file), key@, value@, value_limit, limit)
                == Err::<Seq<char>, SettingsErrorModel>(error@),
        },
        result matches Ok(text) ==> (json_documents::survives(
            settings_after(file_bytes(file), key@, value@),
        ) ==> json_documents::writes(text@, settings_after(file_bytes(file), key@, value@))),
{
    let written: String = write_compact(value);
    if written.as_str().as_bytes().len() as u64 > value_limit {
        return Err(SettingsError::ValueTooLarge);
    }
    let document: Option<Json> = match file {
        Some(bytes) => {
            if bytes.len() as u64 > limit {
                return Err(SettingsError::DocumentTooLarge);
            }
            match parse_bytes(bytes) {
                Ok(settings) => Some(settings),
                Err(detail) => {
                    return Err(SettingsError::Unreadable(detail));
                },
            }
        },
        None => None,
    };
    proof {
        json::lemma_put_is_sound(settings_in(document_model(document)), key_parts(key@), 0, value@);
    }
    let changed: Json = with_setting(document, key, value.clone());
    let text: String = write_pretty(&changed);
    if text.as_str().as_bytes().len() as u64 > limit {
        return Err(SettingsError::DocumentTooLarge);
    }
    Ok(text)
}

/// A setting that was written to a file is read from it.
pub proof fn law_setting_is_read_from_the_file(
    file: Option<Seq<u8>>,
    key: Seq<char>,
    value: JsonModel,
    text: Seq<char>,
    limit: u64,
)
    requires
        json_documents::writes(text, settings_after(file, key, value)),
        vstd::utf8::encode_utf8(text).len() <= limit,
    ensures
        setting_read(Some(vstd::utf8::encode_utf8(text)), key, limit) matches Ok(read)
            && json::same_value(read, value),
{
    vstd::utf8::encode_utf8_valid_utf8(text);
    vstd::utf8::encode_utf8_decode_utf8(text);
    let read = json_text::json_written(text)->Ok_0;
    let after = settings_after(file, key, value);
    json::law_what_is_written_is_read(settings_before(file)->Ok_0, key_parts(key), 0, value);
    json_documents::lemma_same_at_path(read, after, key_parts(key), 0);
}

/// A setting whose key parts from the one that was written is read from the file
/// as it was before.
pub proof fn law_other_settings_stay_in_the_file(
    file: Option<Seq<u8>>,
    key: Seq<char>,
    value: JsonModel,
    other: Seq<char>,
    fork: int,
    text: Seq<char>,
    limit: u64,
)
    requires
        json_documents::writes(text, settings_after(file, key, value)),
        vstd::utf8::encode_utf8(text).len() <= limit,
        0 <= fork < key_parts(key).len(),
        fork < key_parts(other).len(),
        key_parts(key)[fork] != key_parts(other)[fork],
        forall|i: int| 0 <= i < fork ==> key_parts(key)[i] == key_parts(other)[i],
    ensures
        setting_read(Some(vstd::utf8::encode_utf8(text)), other, limit) matches Ok(read)
            && json::same_value(
            read,
            json::at_path(settings_before(file)->Ok_0, key_parts(other), 0),
        ),
{
    vstd::utf8::encode_utf8_valid_utf8(text);
    vstd::utf8::encode_utf8_decode_utf8(text);
    let read = json_text::json_written(text)->Ok_0;
    let after = settings_after(file, key, value);
    law_other_settings_are_kept(settings_before(file)->Ok_0, key, other, fork, value);
    json_documents::lemma_same_at_path(read, after, key_parts(other), 0);
}

/// What is said of an error.
pub open spec fn settings_error_text(
    error: SettingsErrorModel,
    path: Seq<char>,
    value_limit: u64,
    limit: u64,
) -> Seq<char> {
    match error {
        SettingsErrorModel::ValueTooLarge => too_large("settings value"@, value_limit as nat),
        SettingsErrorModel::DocumentTooLarge => too_large("settings document"@, limit as nat),
        SettingsErrorModel::NotText => "settings document is not UTF-8"@,
        SettingsErrorModel::Unreadable(_) => "parsing "@ + path,
    }
}

impl SettingsError {
    /// Says what is wrong.
    pub fn message(&self, path: &str, value_limit: u64, limit: u64) -> (message: String)
        ensures
            message@ == settings_error_text(self@, path@, value_limit, limit),
    {
        match self {
            SettingsError::ValueTooLarge => size_message("settings value", value_limit),
            SettingsError::DocumentTooLarge => size_message("settings document", limit),
            SettingsError::NotText => "settings document is not UTF-8".to_owned(),
            SettingsError::Unreadable(_) => joined("parsing ", path),
        }
    }
}

/// What is said of something that is too large.
pub open spec fn too_large(what: Seq<char>, limit: nat) -> Seq<char> {
    what + " exceeds "@ + numbers::digits_of(limit) + " bytes"@
}

/// Says that something is too large.
fn size_message(what: &str, limit: u64) -> (message: String)
    ensures
        message@ == too_large(what@, limit as nat),
{
    let head: String = around(what, " exceeds ", decimal_text(limit).as_str());
    joined(head.as_str(), " bytes")
}

/// Refuses what is too large.
pub fn check_size(what: &str, size: u64, limit: u64) -> (result: Result<(), String>)
    ensures
        match result {
            Ok(_) => size <= limit,
            Err(message) => size > limit && message@ == too_large(what@, limit as nat),
        },
{
    if size > limit {
        return Err(size_message(what, limit));
    }
    Ok(())
}

proof fn lemma_key_parts_len(key: Seq<char>)
    ensures
        key_parts(key).len() > 0,
    decreases key.len(),
{
    if key.len() > 0 {
        lemma_key_parts_len(key.drop_last());
    }
}

/// Two keys joined by a dot have the parts of the one and then those of the
/// other; a key without a dot is its own only part.
pub proof fn law_dots_part_keys(a: Seq<char>, b: Seq<char>)
    ensures
        key_parts(a + seq!['.'] + b) == key_parts(a) + key_parts(b),
        !a.contains('.') ==> key_parts(a) == seq![a],
{
    lemma_joined_keys(a, b);
    if !a.contains('.') {
        lemma_plain_key(a);
    }
}

proof fn lemma_joined_keys(a: Seq<char>, b: Seq<char>)
    ensures
        key_parts(a + seq!['.'] + b) == key_parts(a) + key_parts(b),
    decreases b.len(),
{
    let all = a + seq!['.'] + b;
    if b.len() == 0 {
        assert(all.drop_last() =~= a);
        assert(all.last() == '.');
        assert(key_parts(all) =~= key_parts(a) + key_parts(b));
    } else {
        let init = b.drop_last();
        lemma_joined_keys(a, init);
        lemma_key_parts_len(init);
        assert(all.drop_last() =~= a + seq!['.'] + init);
        assert(all.last() == b.last());
        assert(key_parts(all) =~= key_parts(a) + key_parts(b));
    }
}

proof fn lemma_plain_key(key: Seq<char>)
    requires
        !key.contains('.'),
    ensures
        key_parts(key) == seq![key],
    decreases key.len(),
{
    if key.len() > 0 {
        let init = key.drop_last();
        assert(key.contains(key[key.len() - 1]));
        assert(!init.contains('.')) by {
            if init.contains('.') {
                let k = choose|k: int| 0 <= k < init.len() && init[k] == '.';
                assert(key[k] == '.');
            }
        }
        lemma_plain_key(init);
        assert(init.push(key.last()) =~= key);
        assert(key_parts(key) =~= seq![key]);
    } else {
        assert(key =~= Seq::<char>::empty());
    }
}

/// A setting that is too large is not written, nor into a document that is; and
/// from a document that is too large, or no text, or no JSON, nothing is read. A
/// document that is not there has no settings.
pub proof fn law_limits_are_kept(
    file: Option<Seq<u8>>,
    key: Seq<char>,
    value: JsonModel,
    value_limit: u64,
    limit: u64,
)
    ensures
        value_size(value) > value_limit ==> setting_written(file, key, value, value_limit, limit)
            == Err::<Seq<char>, SettingsErrorModel>(SettingsErrorModel::ValueTooLarge),
        setting_written(file, key, value, value_limit, limit) matches Ok(text) ==> value_size(value)
            <= value_limit && vstd::utf8::encode_utf8(text).len() <= limit && (file is Some
            ==> file->0.len() <= limit),
        file is None ==> setting_read(file, key, limit) == Ok::<JsonModel, SettingsErrorModel>(
            JsonModel::Null,
        ),
        file is Some && file->0.len() > limit ==> setting_read(file, key, limit) == Err::<
            JsonModel,
            SettingsErrorModel,
        >(SettingsErrorModel::DocumentTooLarge),
        file is Some && file->0.len() <= limit && !vstd::utf8::valid_utf8(file->0) ==> setting_read(
            file,
            key,
            limit,
        ) == Err::<JsonModel, SettingsErrorModel>(SettingsErrorModel::NotText),
{
}

} // verus!
